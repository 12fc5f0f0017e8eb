use sudoku::board::SolveOutcome;
use sudoku::board::Sudoku;
use sudoku::cell::Cell;
use sudoku::cell::SudokuCell;

const PUZZLE: &str = "003020600900305001001806400008102900700000008006708200002609500800203009005010300";
const SOLUTION: &str = "483921657967345821251876493548132976729564138136798245372689514814253769695417382";

fn parse_ok(text: &str) -> Sudoku {
    match Sudoku::parse(text.as_bytes()) {
        Ok(board) => board,
        Err(_) => panic!("puzzle did not parse"),
    }
}

fn cells_text(board: &Sudoku) -> String {
    let bytes: Vec<u8> = board.render().into_iter().filter(|&c| c != b'\n').collect();
    String::from_utf8(bytes).unwrap()
}

fn cell_width(cell: &SudokuCell) -> usize {
    match &cell.0 {
        Cell::Value(_) => 1,
        Cell::Possibly(vs) => vs.len(),
    }
}

fn group_is_permutation(board: &Sudoku, indices: [usize; 9]) -> bool {
    let mut digits: Vec<u8> = indices
        .iter()
        .map(|&i| *board.board[i].0.get().expect("cell not settled"))
        .collect();
    digits.sort();
    digits == vec![1, 2, 3, 4, 5, 6, 7, 8, 9]
}

#[test]
fn new_board_is_fully_open() {
    let board = Sudoku::new();
    assert_eq!(board.board.len(), 81);
    assert!(!board.finished());
    for cell in &board.board {
        assert!(!cell.0.finished());
        match &cell.0 {
            Cell::Possibly(vs) => assert_eq!(*vs, vec![1, 2, 3, 4, 5, 6, 7, 8, 9]),
            Cell::Value(_) => unreachable!(),
        }
    }
}

#[test]
fn index_is_row_major() {
    assert_eq!(Sudoku::index(0, 0), 0);
    assert_eq!(Sudoku::index(3, 4), 31);
    assert_eq!(Sudoku::index(8, 8), 80);
}

#[test]
fn row_indices_walk_one_row() {
    assert_eq!(Sudoku::row_indices(0), [0, 1, 2, 3, 4, 5, 6, 7, 8]);
    assert_eq!(Sudoku::row_indices(8), [72, 73, 74, 75, 76, 77, 78, 79, 80]);
}

#[test]
fn column_indices_walk_one_column() {
    assert_eq!(Sudoku::column_indices(0), [0, 9, 18, 27, 36, 45, 54, 63, 72]);
    assert_eq!(Sudoku::column_indices(2), [2, 11, 20, 29, 38, 47, 56, 65, 74]);
}

#[test]
fn box_indices_walk_one_block() {
    assert_eq!(Sudoku::box_indices(0), [0, 1, 2, 9, 10, 11, 18, 19, 20]);
    assert_eq!(Sudoku::box_indices(1), [27, 28, 29, 36, 37, 38, 45, 46, 47]);
}

#[test]
fn boxes_partition_the_board() {
    let mut seen = [false; 81];
    for b in 0..9 {
        for i in Sudoku::box_indices(b) {
            assert!(!seen[i], "cell covered twice");
            seen[i] = true;
        }
    }
    assert!(seen.iter().all(|&s| s));
}

#[test]
fn solve_constraint_settles_missing_digit() {
    let mut board = Sudoku::new();
    for (k, digit) in [1u8, 2, 3, 4, 5, 6, 7, 8].iter().enumerate() {
        board.board[k] = SudokuCell(Cell::Value(*digit));
    }
    let r = board.solve_constraint(Sudoku::row_indices(0));
    assert!(r.is_ok());
    assert_eq!(board.board[8].0.get(), Some(&9));
}

#[test]
fn solve_constraint_reports_contradiction() {
    let mut board = Sudoku::new();
    board.board[0] = SudokuCell(Cell::Possibly(vec![5]));
    board.board[1] = SudokuCell(Cell::Value(5));
    let r = board.solve_constraint(Sudoku::row_indices(0));
    assert!(r.is_err());
}

#[test]
fn end_to_end_scenario_solves_the_puzzle() {
    let mut board = parse_ok(PUZZLE);
    // repeated rounds reach the fixed point well inside the limit
    let mut rounds = 0;
    while !board.finished() {
        assert!(board.step().is_ok());
        rounds += 1;
        assert!(rounds <= 82, "no fixed point reached");
    }
    assert_eq!(cells_text(&board), SOLUTION);
    assert!(matches!(
        parse_ok(PUZZLE).solve(),
        SolveOutcome::Solved
    ));
}

#[test]
fn solved_groups_hold_every_digit() {
    let mut board = parse_ok(PUZZLE);
    assert!(matches!(board.solve(), SolveOutcome::Solved));
    for n in 0..9 {
        assert!(group_is_permutation(&board, Sudoku::row_indices(n)));
        assert!(group_is_permutation(&board, Sudoku::column_indices(n)));
        assert!(group_is_permutation(&board, Sudoku::box_indices(n)));
    }
}

#[test]
fn candidate_counts_never_grow() {
    let mut board = parse_ok(PUZZLE);
    for _ in 0..5 {
        let before: Vec<usize> = board.board.iter().map(cell_width).collect();
        assert!(board.step().is_ok());
        let after: Vec<usize> = board.board.iter().map(cell_width).collect();
        for i in 0..81 {
            assert!(after[i] <= before[i]);
        }
    }
}

#[test]
fn step_on_fixed_point_changes_nothing() {
    // a solved board is a fixed point
    let mut board = parse_ok(PUZZLE);
    assert!(matches!(board.solve(), SolveOutcome::Solved));
    let before = board.render();
    assert!(board.step().is_ok());
    assert_eq!(board.render(), before);
    // so is a fully open board: there is nothing to eliminate
    let mut blank = parse_ok(&"0".repeat(81));
    assert!(blank.step().is_ok());
    for cell in &blank.board {
        assert_eq!(cell_width(cell), 9);
    }
}

#[test]
fn stall_scenario_reports_stalled() {
    let mut board = parse_ok(&"0".repeat(81));
    let outcome = board.solve();
    assert!(matches!(outcome, SolveOutcome::Stalled));
    assert!(!board.finished());
}

#[test]
fn inconsistent_board_reports_contradiction() {
    let mut board = Sudoku::new();
    board.board[0] = SudokuCell(Cell::Possibly(vec![5]));
    board.board[1] = SudokuCell(Cell::Value(5));
    assert!(matches!(board.solve(), SolveOutcome::Contradiction));
    // the board stays inspectable: the clashing cells are untouched
    assert_eq!(board.board[1].0.get(), Some(&5));
    assert!(!board.board[0].0.finished());
}

#[test]
fn already_solved_board_solves_at_once() {
    let mut board = parse_ok(SOLUTION);
    assert!(matches!(board.solve(), SolveOutcome::Solved));
    assert_eq!(cells_text(&board), SOLUTION);
}
