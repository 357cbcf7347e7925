use sudoku::Sudoku;

fn loaded(dimension: usize, board: Vec<u32>) -> Sudoku {
    let mut grid = Sudoku::new(dimension).unwrap();
    assert_eq!(grid.load_board(board), Ok(()));
    grid
}

fn classic_puzzle() -> Vec<u32> {
    vec![
        5, 3, 0, 0, 7, 0, 0, 0, 0, //
        6, 0, 0, 1, 9, 5, 0, 0, 0, //
        0, 9, 8, 0, 0, 0, 0, 6, 0, //
        8, 0, 0, 0, 6, 0, 0, 0, 3, //
        4, 0, 0, 8, 0, 3, 0, 0, 1, //
        7, 0, 0, 0, 2, 0, 0, 0, 6, //
        0, 6, 0, 0, 0, 0, 2, 8, 0, //
        0, 0, 0, 4, 1, 9, 0, 0, 5, //
        0, 0, 0, 0, 8, 0, 0, 7, 9, //
    ]
}

#[test]
fn blank_grid_allows_every_value() {
    let grid = Sudoku::new(4).unwrap();
    assert_eq!(grid.gather_possible_values(0, 0), vec![1, 2, 3, 4]);
    assert_eq!(grid.gather_possible_values(3, 2), vec![1, 2, 3, 4]);
    let grid = Sudoku::new(9).unwrap();
    assert_eq!(grid.gather_possible_values(4, 4), vec![1, 2, 3, 4, 5, 6, 7, 8, 9]);
    let grid = Sudoku::new(1).unwrap();
    assert_eq!(grid.gather_possible_values(0, 0), vec![1]);
}

#[test]
fn row_column_and_box_each_exclude() {
    // only the row holds a value
    let grid = loaded(4, vec![0, 0, 0, 2, 0, 0, 0, 0, 0, 0, 0, 0, 0, 0, 0, 0]);
    assert_eq!(grid.gather_possible_values(0, 0), vec![1, 3, 4]);
    // only the column holds a value
    let grid = loaded(4, vec![0, 0, 0, 0, 0, 0, 0, 0, 0, 0, 0, 0, 3, 0, 0, 0]);
    assert_eq!(grid.gather_possible_values(0, 0), vec![1, 2, 4]);
    // only the box holds a value, in neither the row nor the column
    let grid = loaded(4, vec![0, 0, 0, 0, 0, 4, 0, 0, 0, 0, 0, 0, 0, 0, 0, 0]);
    assert_eq!(grid.gather_possible_values(0, 0), vec![1, 2, 3]);
    // a value elsewhere excludes nothing
    let grid = loaded(4, vec![0, 0, 0, 0, 0, 0, 1, 0, 0, 0, 0, 0, 0, 0, 0, 0]);
    assert_eq!(grid.gather_possible_values(0, 0), vec![1, 2, 3, 4]);
}

#[test]
fn the_cell_itself_excludes_nothing() {
    let grid = loaded(4, vec![3, 0, 0, 0, 0, 0, 0, 0, 0, 0, 0, 0, 0, 0, 0, 0]);
    assert_eq!(grid.gather_possible_values(0, 0), vec![1, 2, 3, 4]);
    assert_eq!(grid.gather_possible_values(1, 1), vec![1, 2, 4]);
}

#[test]
fn candidates_under_a_locked_first_row() {
    let grid = loaded(4, vec![1, 2, 3, 4, 0, 0, 0, 0, 0, 0, 0, 0, 0, 0, 0, 0]);
    assert_eq!(grid.gather_possible_values(0, 1), vec![3, 4]);
    assert_eq!(grid.gather_possible_values(2, 1), vec![1, 2]);
    assert_eq!(grid.gather_possible_values(3, 3), vec![1, 2, 3]);
}

#[test]
fn candidates_in_a_classic_puzzle() {
    let grid = loaded(9, classic_puzzle());
    assert_eq!(grid.gather_possible_values(2, 0), vec![1, 2, 4]);
    assert_eq!(grid.gather_possible_values(4, 4), vec![5]);
    assert_eq!(grid.gather_possible_values(0, 0), vec![1, 2, 5]);
    assert_eq!(grid.gather_possible_values(7, 7), vec![3]);
}

#[test]
fn no_candidate_is_left_when_all_values_are_taken() {
    let grid = loaded(4, vec![0, 1, 2, 0, 3, 0, 0, 0, 4, 0, 0, 0, 0, 0, 0, 0]);
    assert_eq!(grid.gather_possible_values(0, 0), Vec::<u32>::new());
}

#[test]
fn candidates_come_in_ascending_order() {
    let grid = loaded(9, classic_puzzle());
    for y in 0..9usize {
        for x in 0..9usize {
            let found = grid.gather_possible_values(x, y);
            assert!(found.windows(2).all(|pair| pair[0] < pair[1]));
            assert!(found.iter().all(|v| 1 <= *v && *v <= 9));
        }
    }
}

#[test]
fn boxes_of_a_sixteen_grid_span_four_cells() {
    let mut board = vec![0; 256];
    board[3 * 16 + 3] = 7; // same box as (0, 0)
    board[4 * 16 + 4] = 9; // the next box
    let grid = loaded(16, board);
    let found = grid.gather_possible_values(0, 0);
    assert_eq!(found, vec![1, 2, 3, 4, 5, 6, 8, 9, 10, 11, 12, 13, 14, 15, 16]);
    let found = grid.gather_possible_values(7, 7);
    assert_eq!(found, vec![1, 2, 3, 4, 5, 6, 7, 8, 10, 11, 12, 13, 14, 15, 16]);
}

#[test]
fn blank_and_well_set_grids_are_consistent() {
    assert!(Sudoku::new(0).unwrap().is_consistent());
    assert!(Sudoku::new(4).unwrap().is_consistent());
    assert!(loaded(9, classic_puzzle()).is_consistent());
    assert!(loaded(4, vec![1, 2, 3, 4, 3, 4, 1, 2, 2, 1, 4, 3, 4, 3, 2, 1]).is_consistent());
}

#[test]
fn clashes_in_row_column_and_box_are_found() {
    // two equal values in a row
    assert!(!loaded(4, vec![1, 1, 0, 0, 0, 0, 0, 0, 0, 0, 0, 0, 0, 0, 0, 0]).is_consistent());
    assert!(!loaded(4, vec![0, 0, 0, 0, 2, 0, 0, 2, 0, 0, 0, 0, 0, 0, 0, 0]).is_consistent());
    // in a column
    assert!(!loaded(4, vec![0, 3, 0, 0, 0, 0, 0, 0, 0, 0, 0, 0, 0, 3, 0, 0]).is_consistent());
    // in a box, in neither a row nor a column
    assert!(!loaded(4, vec![0, 0, 4, 0, 0, 0, 0, 4, 0, 0, 0, 0, 0, 0, 0, 0]).is_consistent());
    // equal values that are no peers
    assert!(loaded(4, vec![4, 0, 0, 0, 0, 0, 4, 0, 0, 4, 0, 0, 0, 0, 0, 4]).is_consistent());
    // the last two cells
    assert!(!loaded(4, vec![0, 0, 0, 0, 0, 0, 0, 0, 0, 0, 0, 0, 0, 0, 2, 2]).is_consistent());
}

#[test]
fn values_written_by_hand_count_for_consistency() {
    let mut grid = loaded(4, vec![1, 0, 0, 0, 0, 0, 0, 0, 0, 0, 0, 0, 0, 0, 0, 0]);
    grid.set_value(3, 0, 1);
    assert!(!grid.is_consistent());
    grid.set_value(3, 0, 2);
    assert!(grid.is_consistent());
}
