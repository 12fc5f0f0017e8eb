//! Reading a puzzle from text and formatting a board back to text.

use vstd::prelude::*;

use crate::board::Sudoku;
use crate::cell::full_cand_seq;
use crate::cell::lemma_full_cand_seq;
use crate::cell::Cell;
use crate::cell::SudokuCell;

verus! {

/// The input could not be read as a puzzle: after discarding whitespace it
/// did not hold exactly 81 characters.
#[derive(Debug)]
pub struct ParseError;

/// ASCII whitespace, discarded before a puzzle is read.
pub open spec fn is_blank(c: u8) -> bool {
    c == 32 || c == 9 || c == 10 || c == 12 || c == 13
}

/// `s` with every whitespace byte discarded.
pub open spec fn strip(s: Seq<u8>) -> Seq<u8> {
    s.filter(|c: u8| !is_blank(c))
}

/// The cell a puzzle character stands for: `1` through `9` is a settled
/// clue, any other character an unknown cell open to every digit.
pub open spec fn parsed_cell(c: u8, cell: SudokuCell) -> bool {
    if 49 <= c <= 57 {
        cell.is_fixed() && cell.digit() == c - 48
    } else {
        !cell.is_fixed() && cell.cand_seq() == full_cand_seq()
    }
}

/// The byte standing for one cell: its digit, or `0` for an open cell.
pub open spec fn render_cell(c: SudokuCell) -> u8 {
    if c.is_fixed() {
        (c.digit() + 48) as u8
    } else {
        48u8
    }
}

/// The 81 cell characters of the board, row-major, without line breaks.
pub open spec fn cell_text(s: Sudoku) -> Seq<u8> {
    Seq::new(81, |i: int| render_cell(s.board@[i]))
}

/// The board as text: nine lines of nine characters, with a line break
/// after each of the nine rows' characters but the last row's.
pub open spec fn board_text(s: Sudoku) -> Seq<u8> {
    Seq::new(
        89,
        |p: int|
            if p % 10 == 9 {
                10u8
            } else {
                render_cell(s.board@[(p / 10) * 9 + p % 10])
            },
    )
}

/// A board as construction leaves it: every cell either a settled clue or
/// still open to every digit.
pub open spec fn freshly_parsed(s: Sudoku) -> bool {
    forall|i: int|
        0 <= i < 81 ==> (#[trigger] s.board@[i]).is_fixed() || s.board@[i].cand_seq()
            == full_cand_seq()
}

/// Stripping distributes over extending the input by one byte.
proof fn lemma_strip_snoc(s: Seq<u8>, x: u8)
    requires
        s.len() > 0,
        s.last() == x,
    ensures
        strip(s) == if is_blank(x) {
            strip(s.drop_last())
        } else {
            strip(s.drop_last()).push(x)
        },
{
    reveal(Seq::filter);
}

impl Sudoku {
    /// Read a board from text. Whitespace is discarded; what remains must
    /// be exactly 81 characters, each a digit `1`-`9` for a clue or any
    /// other character for an unknown cell.
    pub fn parse(input: &[u8]) -> (r: Result<Sudoku, ParseError>)
        ensures
            (r is Ok) == (strip(input@).len() == 81),
            r matches Ok(s) ==> s.wf() && freshly_parsed(s) && (forall|i: int|
                0 <= i < 81 ==> parsed_cell(strip(input@)[i], #[trigger] s.board@[i])),
    {
        let n = input.len();
        let mut cleaned: Vec<u8> = Vec::new();
        let mut i: usize = 0;
        while i < n
            invariant
                n == input@.len(),
                i <= n,
                cleaned@ == strip(input@.subrange(0, i as int)),
            decreases n - i,
        {
            let c = input[i];
            proof {
                let t = input@.subrange(0, i as int + 1);
                assert(t.drop_last() =~= input@.subrange(0, i as int));
                assert(t.last() == c);
                lemma_strip_snoc(t, c);
            }
            if !(c == 32 || c == 9 || c == 10 || c == 12 || c == 13) {
                cleaned.push(c);
            }
            i += 1;
        }
        proof {
            assert(input@.subrange(0, n as int) =~= input@);
        }
        if cleaned.len() != 81 {
            return Err(ParseError);
        }
        proof {
            lemma_full_cand_seq();
        }
        let mut board: Vec<SudokuCell> = Vec::new();
        let mut j: usize = 0;
        while j < 81
            invariant
                cleaned@ == strip(input@),
                cleaned@.len() == 81,
                j <= 81,
                board@.len() == j,
                forall|t: int|
                    0 <= t < j ==> parsed_cell(cleaned@[t], #[trigger] board@[t])
                        && board@[t].wf(),
            decreases 81 - j,
        {
            let c = cleaned[j];
            if 49 <= c && c <= 57 {
                board.push(SudokuCell(Cell::Value(c - 48)));
            } else {
                proof {
                    lemma_full_cand_seq();
                }
                board.push(SudokuCell(Cell::Possibly(SudokuCell::all())));
            }
            j += 1;
        }
        Ok(Sudoku { board })
    }

    /// Format the board: nine lines of nine characters each, a digit for a
    /// settled cell and `0` for an open one.
    pub fn render(&self) -> (r: Vec<u8>)
        requires
            self.wf(),
        ensures
            r@ == board_text(*self),
    {
        let mut out: Vec<u8> = Vec::new();
        let mut p: usize = 0;
        while p < 89
            invariant
                self.wf(),
                p <= 89,
                out@.len() == p,
                forall|q: int| 0 <= q < p ==> out@[q] == board_text(*self)[q],
            decreases 89 - p,
        {
            if p % 10 == 9 {
                out.push(10);
            } else {
                let i = (p / 10) * 9 + p % 10;
                match &self.board[i].0 {
                    Cell::Value(d) => {
                        out.push(*d + 48);
                    },
                    Cell::Possibly(_) => {
                        out.push(48);
                    },
                }
            }
            p += 1;
        }
        proof {
            assert(out@ =~= board_text(*self));
        }
        out
    }
}

} // verus!
