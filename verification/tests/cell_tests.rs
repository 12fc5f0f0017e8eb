use sudoku::cell::Cell;
use sudoku::cell::SudokuCell;

fn open_cell(cands: Vec<u8>) -> SudokuCell {
    SudokuCell(Cell::Possibly(cands))
}

fn candidates(cell: &SudokuCell) -> Vec<u8> {
    match &cell.0 {
        Cell::Value(_) => panic!("cell is settled"),
        Cell::Possibly(vs) => vs.clone(),
    }
}

#[test]
fn finished_reports_variant() {
    let settled: Cell<u8, Vec<u8>> = Cell::Value(5);
    let open: Cell<u8, Vec<u8>> = Cell::Possibly(vec![1, 2]);
    assert!(settled.finished());
    assert!(!open.finished());
}

#[test]
fn get_returns_settled_value_only() {
    let settled: Cell<u8, Vec<u8>> = Cell::Value(7);
    let open: Cell<u8, Vec<u8>> = Cell::Possibly(vec![1, 2]);
    assert_eq!(settled.get(), Some(&7));
    assert_eq!(open.get(), None);
}

#[test]
fn all_holds_every_digit_once() {
    assert_eq!(SudokuCell::all(), vec![1, 2, 3, 4, 5, 6, 7, 8, 9]);
}

#[test]
fn eliminate_removes_present_digit() {
    let mut cell = open_cell(vec![3, 5, 7]);
    let r = cell.eliminate(5);
    assert!(r.is_ok());
    assert_eq!(candidates(&cell), vec![3, 7]);
}

#[test]
fn eliminate_absent_digit_is_noop() {
    let mut cell = open_cell(vec![3, 5, 7]);
    let r = cell.eliminate(4);
    assert!(r.is_ok());
    assert_eq!(candidates(&cell), vec![3, 5, 7]);
}

#[test]
fn eliminate_on_settled_cell_is_noop() {
    let mut cell = SudokuCell(Cell::Value(6));
    let r = cell.eliminate(6);
    assert!(r.is_ok());
    assert_eq!(cell.0.get(), Some(&6));
}

#[test]
fn eliminate_promotes_lone_survivor() {
    let mut cell = open_cell(vec![2, 9]);
    let r = cell.eliminate(9);
    assert!(r.is_ok());
    assert!(cell.0.finished());
    assert_eq!(cell.0.get(), Some(&2));
}

#[test]
fn eliminate_last_candidate_is_a_contradiction() {
    let mut cell = open_cell(vec![4]);
    let r = cell.eliminate(4);
    assert!(r.is_err());
    // the cell is left as it stood, open with its lone candidate
    assert!(!cell.0.finished());
    assert_eq!(candidates(&cell), vec![4]);
}
