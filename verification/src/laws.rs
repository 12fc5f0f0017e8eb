//! The library's general laws, stated and proved over the same spec
//! functions its contracts use.

use vstd::prelude::*;

use crate::board::at_fixed_point;
use crate::board::cell_at;
use crate::board::fixed_in_group;
use crate::board::group_stable;
use crate::board::lemma_group_shape;
use crate::board::narrows;
use crate::board::spec_group;
use crate::board::GroupKind;
use crate::board::Sudoku;
use crate::cell::all_digits;
use crate::cell::lemma_full_cand_seq;
use crate::cell::SudokuCell;
use crate::text::board_text;
use crate::text::cell_text;
use crate::text::freshly_parsed;
use crate::text::is_blank;
use crate::text::parsed_cell;
use crate::text::render_cell;
use crate::text::strip;

verus! {

/// Law: candidates only ever shrink. Across any narrowing of the board —
/// one elimination, one pass, one round, or a whole solve — the number of
/// digits a cell may still take never grows.
pub proof fn lemma_narrowing_shrinks_cell(pre: Sudoku, post: Sudoku, i: int)
    requires
        pre.wf(),
        narrows(pre, post),
        0 <= i < 81,
    ensures
        post.board@[i].possible().len() <= pre.board@[i].possible().len(),
        post.board@[i].possible().subset_of(pre.board@[i].possible()),
{
    pre.board@[i].lemma_possible_finite();
    vstd::set_lib::lemma_len_subset(post.board@[i].possible(), pre.board@[i].possible());
}

/// Law: a fully settled group with pairwise distinct digits holds every
/// digit 1 through 9 — its nine digits are a permutation of the nine
/// sudoku digits. (A board whose groups are settled but repeat a digit —
/// possible only when the puzzle's clues were already inconsistent — is
/// excluded by the distinctness premise.)
pub proof fn lemma_settled_group_covers_digits(s: Sudoku, kind: GroupKind, n: int)
    requires
        s.wf(),
        0 <= n < 9,
        forall|k: int| 0 <= k < 9 ==> (#[trigger] cell_at(s, spec_group(kind, n), k)).is_fixed(),
        forall|k1: int, k2: int|
            0 <= k1 < 9 && 0 <= k2 < 9 && k1 != k2 ==> cell_at(s, spec_group(kind, n), k1).digit()
                != cell_at(s, spec_group(kind, n), k2).digit(),
    ensures
        fixed_in_group(s, spec_group(kind, n)) == all_digits(),
{
    let g = spec_group(kind, n);
    lemma_group_shape(kind, n);
    lemma_full_cand_seq();
    let digs = Seq::new(9, |k: int| cell_at(s, g, k).digit());
    assert(digs.no_duplicates());
    digs.unique_seq_to_set();
    let found = fixed_in_group(s, g);
    assert(found =~= digs.to_set()) by {
        assert forall|d: u8| found.contains(d) implies digs.to_set().contains(d) by {
            let k = choose|k: int|
                0 <= k < g.len() && (#[trigger] cell_at(s, g, k)).is_fixed() && cell_at(
                    s,
                    g,
                    k,
                ).digit() == d;
            assert(digs[k] == d);
        }
        assert forall|d: u8| digs.to_set().contains(d) implies found.contains(d) by {
            let k = choose|k: int| 0 <= k < digs.len() && digs[k] == d;
            assert(cell_at(s, g, k).is_fixed() && cell_at(s, g, k).digit() == d);
        }
    }
    assert(found.subset_of(all_digits())) by {
        assert forall|d: u8| found.contains(d) implies all_digits().contains(d) by {
            let k = choose|k: int|
                0 <= k < g.len() && (#[trigger] cell_at(s, g, k)).is_fixed() && cell_at(
                    s,
                    g,
                    k,
                ).digit() == d;
            assert(s.board@[g[k] as int].wf());
        }
    }
    assert(found == all_digits()) by {
        if found != all_digits() {
            assert(exists|d: u8| all_digits().contains(d) && !found.contains(d)) by {
                assert(!all_digits().subset_of(found)) by {
                    if all_digits().subset_of(found) {
                        assert(found =~= all_digits());
                    }
                }
            }
            let d = choose|d: u8| all_digits().contains(d) && !found.contains(d);
            assert(found.subset_of(all_digits().remove(d)));
            vstd::set_lib::lemma_len_subset(found, all_digits().remove(d));
        }
    }
}

/// A fully settled board is a fixed point: with no open cells there is
/// nothing left for a round of propagation to do, so `step` keeps the
/// board exactly as it is.
pub proof fn lemma_all_fixed_is_fixed_point(s: Sudoku)
    requires
        s.wf(),
        s.all_fixed(),
    ensures
        at_fixed_point(s),
{
    assert forall|kind: GroupKind, n: int| 0 <= n < 9 implies group_stable(
        s,
        #[trigger] spec_group(kind, n),
    ) by {
        lemma_group_shape(kind, n);
        let g = spec_group(kind, n);
        assert forall|k: int| 0 <= k < g.len() implies (#[trigger] cell_at(
            s,
            g,
            k,
        )).is_fixed() by {
            assert(g[k] < 81);
        }
    }
}

/// Stripping the formatted board, cut off after its first `p` characters,
/// leaves exactly the cell characters seen so far: every tenth character
/// is the line break between two rows, and nothing else is whitespace.
proof fn lemma_strip_board_text_prefix(s: Sudoku, p: int)
    requires
        s.wf(),
        0 <= p <= 89,
    ensures
        strip(board_text(s).subrange(0, p)) == cell_text(s).subrange(0, p - p / 10),
    decreases p,
{
    reveal(Seq::filter);
    if p == 0 {
        assert(board_text(s).subrange(0, 0) =~= Seq::<u8>::empty());
        assert(cell_text(s).subrange(0, 0) =~= Seq::<u8>::empty());
    } else {
        lemma_strip_board_text_prefix(s, p - 1);
        let t = board_text(s).subrange(0, p);
        let x = board_text(s)[p - 1];
        assert(t.drop_last() =~= board_text(s).subrange(0, p - 1));
        assert(t.last() == x);
        if (p - 1) % 10 == 9 {
            assert(x == 10);
            assert(p - p / 10 == (p - 1) - (p - 1) / 10);
        } else {
            let i = ((p - 1) / 10) * 9 + (p - 1) % 10;
            assert(0 <= i < 81);
            assert(x == render_cell(s.board@[i]));
            assert(s.board@[i].wf());
            assert(!is_blank(x));
            assert(i == (p - 1) - (p - 1) / 10);
            assert(p - p / 10 == i + 1);
            assert(cell_text(s)[i] == x);
            assert(cell_text(s).subrange(0, i + 1) =~= cell_text(s).subrange(0, i).push(x));
        }
    }
}

/// Law: the text of a freshly constructed board parses back to the very
/// same board. Stripping the rendered text leaves 81 characters, and each
/// stands for exactly the cell it was rendered from, so `parse` accepts it
/// and rebuilds an equivalent board.
pub proof fn lemma_render_parse_round_trip(s: Sudoku)
    requires
        s.wf(),
        freshly_parsed(s),
    ensures
        strip(board_text(s)).len() == 81,
        forall|i: int| 0 <= i < 81 ==> parsed_cell(strip(board_text(s))[i], #[trigger] s.board@[i]),
{
    lemma_strip_board_text_prefix(s, 89);
    assert(board_text(s).subrange(0, 89) =~= board_text(s));
    assert(cell_text(s).subrange(0, 81) =~= cell_text(s));
    assert forall|i: int| 0 <= i < 81 implies parsed_cell(
        strip(board_text(s))[i],
        #[trigger] s.board@[i],
    ) by {
        assert(strip(board_text(s))[i] == render_cell(s.board@[i]));
        assert(s.board@[i].wf());
    }
}

/// Two cells that the same puzzle character stands for agree in every
/// observable way: settledness, settled digit, and candidate list.
pub proof fn lemma_parsed_cells_agree(c: u8, a: SudokuCell, b: SudokuCell)
    requires
        parsed_cell(c, a),
        parsed_cell(c, b),
    ensures
        a.is_fixed() == b.is_fixed(),
        a.is_fixed() ==> a.digit() == b.digit(),
        !a.is_fixed() ==> a.cand_seq() == b.cand_seq(),
{
}

} // verus!
