use sudoku::board::Sudoku;
use sudoku::cell::Cell;
use sudoku::cell::SudokuCell;

const PUZZLE: &str = "003020600900305001001806400008102900700000008006708200002609500800203009005010300";

fn parse_ok(text: &str) -> Sudoku {
    match Sudoku::parse(text.as_bytes()) {
        Ok(board) => board,
        Err(_) => panic!("puzzle did not parse"),
    }
}

fn cells_equivalent(a: &SudokuCell, b: &SudokuCell) -> bool {
    match (&a.0, &b.0) {
        (Cell::Value(x), Cell::Value(y)) => x == y,
        (Cell::Possibly(xs), Cell::Possibly(ys)) => xs == ys,
        _ => false,
    }
}

#[test]
fn parse_rejects_wrong_lengths() {
    assert!(Sudoku::parse(b"123").is_err());
    assert!(Sudoku::parse("0".repeat(80).as_bytes()).is_err());
    assert!(Sudoku::parse("0".repeat(82).as_bytes()).is_err());
    assert!(Sudoku::parse(b"").is_err());
    assert!(Sudoku::parse("0".repeat(81).as_bytes()).is_ok());
}

#[test]
fn parse_strips_whitespace_before_counting() {
    let mut laid_out = String::new();
    for row in 0..9 {
        laid_out.push_str("  ");
        laid_out.push_str(&PUZZLE[row * 9..row * 9 + 9]);
        laid_out.push('\n');
    }
    let a = parse_ok(&laid_out);
    let b = parse_ok(PUZZLE);
    for i in 0..81 {
        assert!(cells_equivalent(&a.board[i], &b.board[i]));
    }
}

#[test]
fn parse_reads_clues_and_placeholders() {
    let mut text = ".".repeat(81);
    text.replace_range(0..1, "7");
    text.replace_range(80..81, "2");
    let board = parse_ok(&text);
    assert_eq!(board.board[0].0.get(), Some(&7));
    assert_eq!(board.board[80].0.get(), Some(&2));
    match &board.board[40].0 {
        Cell::Possibly(vs) => assert_eq!(*vs, vec![1, 2, 3, 4, 5, 6, 7, 8, 9]),
        Cell::Value(_) => panic!("placeholder parsed as a clue"),
    }
}

#[test]
fn render_writes_nine_lines() {
    let board = parse_ok(PUZZLE);
    let text = String::from_utf8(board.render()).unwrap();
    let lines: Vec<&str> = text.split('\n').collect();
    assert_eq!(lines.len(), 9);
    for (row, line) in lines.iter().enumerate() {
        assert_eq!(*line, &PUZZLE[row * 9..row * 9 + 9]);
    }
}

#[test]
fn render_uses_zero_for_open_cells() {
    let board = Sudoku::new();
    let text = String::from_utf8(board.render()).unwrap();
    assert_eq!(text, ["000000000"; 9].join("\n"));
}

#[test]
fn parse_render_round_trip_reproduces_the_board() {
    let first = parse_ok(PUZZLE);
    let rendered = first.render();
    let second = match Sudoku::parse(&rendered) {
        Ok(board) => board,
        Err(_) => panic!("rendered board did not parse"),
    };
    for i in 0..81 {
        assert!(cells_equivalent(&first.board[i], &second.board[i]));
    }
}
