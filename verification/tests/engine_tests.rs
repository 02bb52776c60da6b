use game_of_life::board::Board;
use game_of_life::board::Cell;

#[test]
fn is_underpopulated() {
    let cell = Cell { x: 1, y: 2 };
    let cells = vec![Cell { x: 1, y: 1 }, Cell { x: 1, y: 2 }];
    let board = Board::new(10, 10, cells).unwrap();

    assert_eq!(true, cell.underpopulated(&board));
}

#[test]
fn is_overpopulated() {
    let cell = Cell { x: 1, y: 2 };
    let cells = vec![
        Cell { x: 1, y: 1 },
        Cell { x: 1, y: 2 },
        Cell { x: 1, y: 3 },
        Cell { x: 2, y: 2 },
        Cell { x: 0, y: 2 },
    ];
    let board = Board::new(10, 10, cells).unwrap();

    assert_eq!(true, cell.overpopulated(&board));
}

#[test]
fn stays_alive() {
    let cell = Cell { x: 1, y: 2 };
    let cells = vec![
        Cell { x: 1, y: 2 },
        Cell { x: 1, y: 1 },
        Cell { x: 1, y: 3 },
        Cell { x: 2, y: 2 },
    ];
    let board = Board::new(10, 10, cells).unwrap();

    assert_eq!(true, cell.stays_alive(&board));
}

#[test]
fn is_reborn() {
    let cell = Cell { x: 1, y: 2 };
    let cells = vec![
        Cell { x: 1, y: 2 },
        Cell { x: 1, y: 1 },
        Cell { x: 1, y: 3 },
        Cell { x: 2, y: 2 },
    ];
    let board = Board::new(10, 10, cells).unwrap();

    assert_eq!(true, cell.reproduce(&board));
}

#[test]
fn dead_cell_with_two_neighbours_stays_dead() {
    let cells = vec![Cell { x: 0, y: 0 }, Cell { x: 0, y: 1 }];
    let board = Board::new(3, 3, cells).unwrap();
    let dead = Cell { x: 1, y: 0 };

    assert_eq!(false, dead.stays_alive(&board));
    assert_eq!(false, dead.in_next_gen(&board));
}

#[test]
fn block_is_a_still_life() {
    let cells = vec![
        Cell { x: 0, y: 0 },
        Cell { x: 0, y: 1 },
        Cell { x: 1, y: 0 },
        Cell { x: 1, y: 1 },
    ];
    let board = Board::new(4, 4, cells).unwrap();
    let next = Board::next_board(&board);

    assert_eq!(4, next.width());
    assert_eq!(4, next.height());
    for x in 0..4 {
        for y in 0..4 {
            let expected = x <= 1 && y <= 1;
            assert_eq!(expected, next.is_alive(&Cell { x, y }));
        }
    }
}

#[test]
fn isolated_cell_dies_of_underpopulation() {
    let board = Board::new(3, 3, vec![Cell { x: 1, y: 1 }]).unwrap();
    let next = Board::next_board(&board);

    assert_eq!(0, next.alive_cells().len());
}

#[test]
fn crowded_cell_dies_of_overpopulation() {
    let cells = vec![
        Cell { x: 1, y: 1 },
        Cell { x: 0, y: 0 },
        Cell { x: 0, y: 1 },
        Cell { x: 0, y: 2 },
        Cell { x: 1, y: 0 },
    ];
    let board = Board::new(3, 3, cells).unwrap();

    assert_eq!(true, Cell { x: 1, y: 1 }.overpopulated(&board));
    let next = Board::next_board(&board);
    assert_eq!(false, next.is_alive(&Cell { x: 1, y: 1 }));
}

#[test]
fn dead_cell_with_three_neighbours_is_born() {
    let cells = vec![Cell { x: 0, y: 0 }, Cell { x: 0, y: 1 }, Cell { x: 0, y: 2 }];
    let board = Board::new(3, 3, cells).unwrap();

    assert_eq!(true, Cell { x: 1, y: 1 }.reproduce(&board));
    let next = Board::next_board(&board);
    assert_eq!(true, next.is_alive(&Cell { x: 1, y: 1 }));
}

#[test]
fn blinker_oscillates_with_period_two() {
    let cells = vec![Cell { x: 0, y: 1 }, Cell { x: 1, y: 1 }, Cell { x: 2, y: 1 }];
    let board = Board::new(3, 3, cells).unwrap();
    let first = Board::next_board(&board);
    let second = Board::next_board(&first);

    for x in 0..3 {
        for y in 0..3 {
            assert_eq!(x == 1, first.is_alive(&Cell { x, y }));
            assert_eq!(y == 1, second.is_alive(&Cell { x, y }));
        }
    }
}

#[test]
fn next_board_is_deterministic() {
    let cells = vec![
        Cell { x: 0, y: 0 },
        Cell { x: 1, y: 1 },
        Cell { x: 2, y: 1 },
        Cell { x: 3, y: 3 },
        Cell { x: 4, y: 0 },
    ];
    let board = Board::new(5, 5, cells).unwrap();
    let once = Board::next_board(&board);
    let again = Board::next_board(&board);

    for x in 0..5 {
        for y in 0..5 {
            let c = Cell { x, y };
            assert_eq!(once.is_alive(&c), again.is_alive(&c));
        }
    }
}
