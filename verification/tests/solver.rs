use sudoku::{Sudoku, Unsolvable};

fn puzzle(dimension: usize, board: Vec<u32>) -> Sudoku {
    let mut grid = Sudoku::new(dimension).unwrap();
    assert_eq!(grid.load_board(board), Ok(()));
    grid
}

fn values_of(grid: &Sudoku) -> Vec<u32> {
    let n = grid.dimension();
    let mut out = Vec::new();
    for y in 0..n {
        for x in 0..n {
            out.push(grid.value_at(x, y));
        }
    }
    out
}

/// Every row, column and box holds each of 1..=n exactly once.
fn is_valid_solution(grid: &Sudoku) -> bool {
    let n = grid.dimension();
    let b = grid.box_size();
    let full: Vec<u32> = (1..=n as u32).collect();
    for u in 0..n {
        let mut row: Vec<u32> = (0..n).map(|k| grid.value_at(k, u)).collect();
        let mut column: Vec<u32> = (0..n).map(|k| grid.value_at(u, k)).collect();
        let mut boxed: Vec<u32> = (0..n)
            .map(|k| grid.value_at((u % b) * b + k % b, (u / b) * b + k / b))
            .collect();
        row.sort();
        column.sort();
        boxed.sort();
        if row != full || column != full || boxed != full {
            return false;
        }
    }
    true
}

fn classic_puzzle() -> Vec<u32> {
    vec![
        5, 3, 0, 0, 7, 0, 0, 0, 0, //
        6, 0, 0, 1, 9, 5, 0, 0, 0, //
        0, 9, 8, 0, 0, 0, 0, 6, 0, //
        8, 0, 0, 0, 6, 0, 0, 0, 3, //
        4, 0, 0, 8, 0, 3, 0, 0, 1, //
        7, 0, 0, 0, 2, 0, 0, 0, 6, //
        0, 6, 0, 0, 0, 0, 2, 8, 0, //
        0, 0, 0, 4, 1, 9, 0, 0, 5, //
        0, 0, 0, 0, 8, 0, 0, 7, 9, //
    ]
}

fn classic_solution() -> Vec<u32> {
    vec![
        5, 3, 4, 6, 7, 8, 9, 1, 2, //
        6, 7, 2, 1, 9, 5, 3, 4, 8, //
        1, 9, 8, 3, 4, 2, 5, 6, 7, //
        8, 5, 9, 7, 6, 1, 4, 2, 3, //
        4, 2, 6, 8, 5, 3, 7, 9, 1, //
        7, 1, 3, 9, 2, 4, 8, 5, 6, //
        9, 6, 1, 5, 3, 7, 2, 8, 4, //
        2, 8, 7, 4, 1, 9, 6, 3, 5, //
        3, 4, 5, 2, 8, 6, 1, 7, 9, //
    ]
}

#[test]
fn locked_first_row_is_completed() {
    let mut grid = puzzle(4, vec![1, 2, 3, 4, 0, 0, 0, 0, 0, 0, 0, 0, 0, 0, 0, 0]);
    assert_eq!(grid.solve(0), Ok(()));
    assert!(is_valid_solution(&grid));
    let found = values_of(&grid);
    assert_eq!(&found[0..4], &[1, 2, 3, 4]);
    assert_eq!(found, vec![1, 2, 3, 4, 3, 4, 1, 2, 2, 1, 4, 3, 4, 3, 2, 1]);
}

#[test]
fn clashing_clues_are_unsolvable() {
    let board = vec![1, 1, 0, 0, 0, 0, 0, 0, 0, 0, 0, 0, 0, 0, 0, 0];
    let mut grid = puzzle(4, board.clone());
    assert!(!grid.is_consistent());
    assert_eq!(grid.solve(0), Err(Unsolvable { index: 2 }));
    assert_eq!(values_of(&grid), board);
}

#[test]
fn blank_nine_grid_is_filled() {
    let mut grid = Sudoku::new(9).unwrap();
    assert_eq!(grid.solve(0), Ok(()));
    assert!(is_valid_solution(&grid));
    assert_eq!(
        values_of(&grid),
        vec![
            1, 2, 3, 4, 5, 6, 7, 8, 9, //
            4, 5, 6, 7, 8, 9, 1, 2, 3, //
            7, 8, 9, 1, 2, 3, 4, 5, 6, //
            2, 1, 4, 3, 6, 5, 8, 9, 7, //
            3, 6, 5, 8, 9, 7, 2, 1, 4, //
            8, 9, 7, 2, 1, 4, 3, 6, 5, //
            5, 3, 1, 6, 4, 2, 9, 7, 8, //
            6, 4, 2, 9, 7, 8, 5, 3, 1, //
            9, 7, 8, 5, 3, 1, 6, 4, 2, //
        ]
    );
}

#[test]
fn blank_four_grid_gets_the_first_filling() {
    let mut grid = Sudoku::new(4).unwrap();
    assert_eq!(grid.solve(0), Ok(()));
    assert_eq!(values_of(&grid), vec![1, 2, 3, 4, 3, 4, 1, 2, 2, 1, 4, 3, 4, 3, 2, 1]);
}

#[test]
fn classic_puzzle_is_solved() {
    let mut grid = puzzle(9, classic_puzzle());
    assert_eq!(grid.solve(0), Ok(()));
    assert_eq!(values_of(&grid), classic_solution());
    assert!(is_valid_solution(&grid));
}

#[test]
fn clues_keep_their_values_and_locks() {
    let board = classic_puzzle();
    let mut grid = puzzle(9, board.clone());
    assert_eq!(grid.solve(0), Ok(()));
    for y in 0..9usize {
        for x in 0..9usize {
            let clue = board[y * 9 + x];
            assert_eq!(grid.is_locked(x, y), clue != 0);
            if clue != 0 {
                assert_eq!(grid.value_at(x, y), clue);
            }
        }
    }
}

#[test]
fn solved_grid_holds_each_value_once_per_unit() {
    let mut grid = puzzle(9, classic_puzzle());
    assert!(grid.is_consistent());
    assert_eq!(grid.solve(0), Ok(()));
    assert!(grid.is_consistent());
    for u in 0..9usize {
        for v in 1..=9u32 {
            let in_row = (0..9usize).filter(|k| grid.value_at(*k, u) == v).count();
            let in_column = (0..9usize).filter(|k| grid.value_at(u, *k) == v).count();
            let in_box = (0..9usize)
                .filter(|k| grid.value_at((u % 3) * 3 + k % 3, (u / 3) * 3 + k / 3) == v)
                .count();
            assert_eq!((in_row, in_column, in_box), (1, 1, 1));
        }
    }
}

#[test]
fn all_locked_grid_is_left_unchanged() {
    let board = classic_solution();
    let mut grid = puzzle(9, board.clone());
    assert_eq!(grid.solve(0), Ok(()));
    assert_eq!(values_of(&grid), board);
    for y in 0..9usize {
        for x in 0..9usize {
            assert!(grid.is_locked(x, y));
        }
    }
}

#[test]
fn solving_twice_gives_the_same_output() {
    let mut first = puzzle(9, classic_puzzle());
    let mut second = puzzle(9, classic_puzzle());
    assert_eq!(first.solve(0), second.solve(0));
    assert_eq!(values_of(&first), values_of(&second));
    let mut first = puzzle(4, vec![0, 0, 0, 0, 1, 2, 3, 0, 0, 0, 0, 4, 0, 0, 0, 0]);
    let mut second = puzzle(4, vec![0, 0, 0, 0, 1, 2, 3, 0, 0, 0, 0, 4, 0, 0, 0, 0]);
    assert_eq!(first.solve(0), second.solve(0));
    assert_eq!(values_of(&first), values_of(&second));
}

#[test]
fn solving_a_solved_grid_again_changes_nothing() {
    let mut grid = puzzle(9, classic_puzzle());
    assert_eq!(grid.solve(0), Ok(()));
    let found = values_of(&grid);
    assert_eq!(grid.solve(0), Ok(()));
    assert_eq!(values_of(&grid), found);
}

#[test]
fn failure_names_the_first_free_cell() {
    // the last cell of the first row can only take 4, which its column holds
    let board = vec![1, 2, 3, 0, 0, 0, 0, 4, 0, 0, 0, 0, 0, 0, 0, 0];
    let mut grid = puzzle(4, board.clone());
    assert_eq!(grid.solve(0), Err(Unsolvable { index: 3 }));
    assert_eq!(values_of(&grid), board);
    // the contradiction lies in the second row, the search starts in the first
    let board = vec![0, 0, 0, 0, 1, 2, 3, 0, 0, 0, 0, 4, 0, 0, 0, 0];
    let mut grid = puzzle(4, board.clone());
    assert_eq!(grid.solve(0), Err(Unsolvable { index: 0 }));
    assert_eq!(values_of(&grid), board);
}

#[test]
fn failure_leaves_a_blank_grid_as_it_was() {
    let board = vec![
        1, 2, 3, 4, 5, 6, 7, 8, 0, //
        0, 0, 0, 0, 0, 0, 0, 0, 9, //
        0, 0, 0, 0, 0, 0, 0, 0, 0, //
        0, 0, 0, 0, 0, 0, 0, 0, 0, //
        0, 0, 0, 0, 0, 0, 0, 0, 0, //
        0, 0, 0, 0, 0, 0, 0, 0, 0, //
        0, 0, 0, 0, 0, 0, 0, 0, 0, //
        0, 0, 0, 0, 0, 0, 0, 0, 0, //
        0, 0, 0, 0, 0, 0, 0, 0, 0, //
    ];
    let mut grid = puzzle(9, board.clone());
    assert_eq!(grid.solve(0), Err(Unsolvable { index: 8 }));
    assert_eq!(values_of(&grid), board);
}

#[test]
fn past_the_last_cell_there_is_nothing_to_do() {
    let board = vec![1, 1, 0, 0, 0, 0, 0, 0, 0, 0, 0, 0, 0, 0, 0, 0];
    let mut grid = puzzle(4, board.clone());
    assert_eq!(grid.solve(16), Ok(()));
    assert_eq!(values_of(&grid), board);
    let mut empty = Sudoku::new(0).unwrap();
    assert_eq!(empty.solve(0), Ok(()));
}

#[test]
fn locked_last_cell_succeeds_without_candidates() {
    // the last cell holds a value of its row, but it is locked
    let board = vec![0, 0, 0, 0, 0, 0, 0, 0, 0, 0, 0, 0, 1, 2, 1, 1];
    let mut grid = puzzle(4, board.clone());
    assert_eq!(grid.gather_possible_values(3, 3), vec![3, 4]);
    assert_eq!(grid.solve(15), Ok(()));
    assert_eq!(values_of(&grid), board);
    let board = vec![0, 0, 0, 1, 0, 0, 0, 2, 0, 0, 0, 3, 0, 0, 0, 4];
    let mut grid = puzzle(4, board.clone());
    assert_eq!(grid.solve(15), Ok(()));
    assert_eq!(values_of(&grid), board);
}

#[test]
fn free_last_cell_gets_its_one_candidate() {
    let mut grid = puzzle(4, vec![1, 2, 3, 4, 3, 4, 1, 2, 2, 1, 4, 3, 4, 3, 2, 0]);
    assert_eq!(grid.gather_possible_values(3, 3), vec![1]);
    assert_eq!(grid.solve(15), Ok(()));
    assert_eq!(values_of(&grid), vec![1, 2, 3, 4, 3, 4, 1, 2, 2, 1, 4, 3, 4, 3, 2, 1]);
}

#[test]
fn free_last_cell_gets_its_smallest_candidate() {
    let mut grid = puzzle(4, vec![0, 0, 0, 0, 0, 0, 0, 0, 0, 0, 0, 0, 0, 0, 1, 0]);
    assert_eq!(grid.gather_possible_values(3, 3), vec![2, 3, 4]);
    assert_eq!(grid.solve(15), Ok(()));
    assert_eq!(values_of(&grid), vec![0, 0, 0, 0, 0, 0, 0, 0, 0, 0, 0, 0, 0, 0, 1, 2]);
}

#[test]
fn free_last_cell_without_candidate_fails() {
    let board = vec![0, 0, 0, 1, 0, 0, 0, 2, 0, 0, 0, 0, 0, 3, 4, 0];
    let mut grid = puzzle(4, board.clone());
    assert_eq!(grid.gather_possible_values(3, 3), Vec::<u32>::new());
    assert_eq!(grid.solve(15), Err(Unsolvable { index: 15 }));
    assert_eq!(values_of(&grid), board);
}

#[test]
fn single_cell_grid_is_solved_with_one() {
    let mut grid = Sudoku::new(1).unwrap();
    assert_eq!(grid.solve(0), Ok(()));
    assert_eq!(grid.value_at(0, 0), 1);
    let mut grid = puzzle(1, vec![1]);
    assert_eq!(grid.solve(0), Ok(()));
    assert_eq!(grid.value_at(0, 0), 1);
}

#[test]
fn search_from_the_middle_leaves_earlier_cells_alone() {
    let mut grid = puzzle(4, vec![1, 2, 3, 4, 0, 0, 0, 0, 0, 0, 0, 0, 0, 0, 0, 0]);
    assert_eq!(grid.solve(8), Ok(()));
    let found = values_of(&grid);
    assert_eq!(&found[0..8], &[1, 2, 3, 4, 0, 0, 0, 0]);
    assert_eq!(&found[8..16], &[2, 1, 4, 3, 3, 4, 1, 2]);
}

#[test]
fn values_written_by_hand_constrain_the_search() {
    let mut grid = Sudoku::new(4).unwrap();
    grid.set_value(0, 0, 4);
    // the first cell is free: the search overwrites it with its smallest candidate
    assert_eq!(grid.solve(0), Ok(()));
    assert_eq!(grid.value_at(0, 0), 1);
    assert!(is_valid_solution(&grid));
    // a value behind the start of the search stays and is respected
    let mut grid = Sudoku::new(4).unwrap();
    grid.set_value(0, 0, 4);
    assert_eq!(grid.solve(1), Ok(()));
    assert_eq!(grid.value_at(0, 0), 4);
    assert!(is_valid_solution(&grid));
}

#[test]
fn all_locked_grid_with_a_clash_is_not_examined() {
    let board = vec![1; 16];
    let mut grid = puzzle(4, board.clone());
    assert_eq!(grid.solve(0), Ok(()));
    assert_eq!(values_of(&grid), board);
    assert!(!grid.is_consistent());
    assert!(!is_valid_solution(&grid));
}

#[test]
fn failure_blanks_only_cells_that_it_tried() {
    let mut grid = puzzle(4, vec![0, 0, 0, 0, 1, 2, 3, 0, 0, 0, 0, 4, 0, 0, 0, 0]);
    grid.set_value(3, 0, 1);
    grid.set_value(0, 3, 2);
    grid.set_value(3, 3, 3);
    assert_eq!(grid.solve(0), Err(Unsolvable { index: 0 }));
    assert_eq!(values_of(&grid), vec![0, 0, 0, 0, 1, 2, 3, 0, 0, 0, 0, 4, 2, 0, 0, 3]);
}
