//! The 9x9 board and the constraint-propagation driver.

use vstd::prelude::*;

use crate::cell::full_cand_seq;
use crate::cell::lemma_full_cand_seq;
use crate::cell::Cell;
use crate::cell::ContradictionError;
use crate::cell::SudokuCell;

verus! {

/// How one round of solving ended.
pub enum SolveOutcome {
    /// Every cell is settled.
    Solved,
    /// The round limit was reached with cells still open: the naked-singles
    /// technique alone cannot finish this puzzle.
    Stalled,
    /// An elimination would have emptied a cell's candidate set: the board
    /// is inconsistent. It is left as it stood for inspection.
    Contradiction,
}

/// The most rounds `solve` will run: one more than the cell count, a
/// generous guard, since candidate sets only shrink.
pub const ROUND_LIMIT: u32 = 82;

/// A 9x9 sudoku board: 81 cells in row-major order, cell `(r, c)` at
/// index `r * 9 + c`.
pub struct Sudoku {
    pub board: Vec<SudokuCell>,
}

/// The board indices of row `r`, left to right.
pub open spec fn spec_row_group(r: int) -> Seq<usize> {
    Seq::new(9, |c: int| (r * 9 + c) as usize)
}

/// The board indices of column `c`, top to bottom.
pub open spec fn spec_col_group(c: int) -> Seq<usize> {
    Seq::new(9, |r: int| (r * 9 + c) as usize)
}

/// The top-left cell of box `b`. Boxes are numbered column-major over the
/// 3x3 arrangement of boxes; only the partition they induce is observable,
/// so the numbering is a free choice.
pub open spec fn box_base(b: int) -> int {
    seq![0, 27, 54, 3, 30, 57, 6, 33, 60][b]
}

/// The offset of the `k`-th cell of a box from its top-left cell, walking
/// the 3x3 block in row-major order.
pub open spec fn box_offset(k: int) -> int {
    seq![0, 1, 2, 9, 10, 11, 18, 19, 20][k]
}

/// The board indices of box `b`.
pub open spec fn spec_box_group(b: int) -> Seq<usize> {
    Seq::new(9, |k: int| (box_base(b) + box_offset(k)) as usize)
}

/// Which family a constraint group belongs to. A group is named by its
/// kind and its number within the kind, both pure index data.
#[derive(Clone, Copy)]
pub enum GroupKind {
    Row,
    Column,
    Box,
}

/// The board indices of group `n` of the given kind.
pub open spec fn spec_group(kind: GroupKind, n: int) -> Seq<usize> {
    match kind {
        GroupKind::Row => spec_row_group(n),
        GroupKind::Column => spec_col_group(n),
        GroupKind::Box => spec_box_group(n),
    }
}

/// The cell that the `k`-th entry of group `g` points at.
pub open spec fn cell_at(s: Sudoku, g: Seq<usize>, k: int) -> SudokuCell {
    s.board@[g[k] as int]
}

/// The digits already settled among the cells that `g` points at.
pub open spec fn fixed_in_group(s: Sudoku, g: Seq<usize>) -> Set<u8> {
    Set::new(
        |d: u8|
            exists|k: int|
                0 <= k < g.len() && (#[trigger] cell_at(s, g, k)).is_fixed() && cell_at(
                    s,
                    g,
                    k,
                ).digit() == d,
    )
}

/// Nothing is left for one elimination pass over `g` to do: every cell is
/// settled, or its candidates avoid every digit settled in the group.
pub open spec fn group_stable(s: Sudoku, g: Seq<usize>) -> bool {
    forall|k: int|
        0 <= k < g.len() ==> (#[trigger] cell_at(s, g, k)).is_fixed() || cell_at(
            s,
            g,
            k,
        ).cands().disjoint(fixed_in_group(s, g))
}

/// An open cell whose lone candidate is among the digits `taken`:
/// eliminating those digits from it is bound to fail.
pub open spec fn contradicted_cell(c: SudokuCell, taken: Set<u8>) -> bool {
    !c.is_fixed() && c.cands().len() == 1 && c.cands().subset_of(taken)
}

/// A pass over `g` is bound to fail: some cell's only remaining candidate
/// is already settled elsewhere in the group.
pub open spec fn group_contradiction(s: Sudoku, g: Seq<usize>) -> bool {
    exists|k: int|
        0 <= k < g.len() && contradicted_cell(#[trigger] cell_at(s, g, k), fixed_in_group(s, g))
}

/// What accumulated eliminations do to one cell. `orig` is the cell before
/// a pass began, `now` the cell after the digits in `vp` were eliminated
/// from it, one at a time. A settled cell is untouched; an open cell that
/// met none of the digits is untouched; otherwise its candidates shrink to
/// `cands \ vp`, settling the cell when one candidate is left, and when
/// none is left the cell settled earlier on one of its candidates.
pub open spec fn elim_rel(orig: SudokuCell, now: SudokuCell, vp: Set<u8>) -> bool {
    &&& (orig.is_fixed() ==> now == orig)
    &&& (!orig.is_fixed() ==> {
        let c = orig.cands();
        let rem = c.difference(vp);
        &&& (c.disjoint(vp) ==> now == orig)
        &&& (!c.disjoint(vp) && rem.len() >= 2 ==> !now.is_fixed() && now.cands() == rem)
        &&& (!c.disjoint(vp) && rem.len() == 1 ==> now.is_fixed() && rem == set![now.digit()])
        &&& (!c.disjoint(vp) && rem.len() == 0 ==> now.is_fixed() && c.contains(now.digit()))
    })
}

/// `post` is `pre` after some narrowing: the same 81 cells, each keeping
/// every settled cell exactly and never growing an open cell's
/// possibilities.
pub open spec fn narrows(pre: Sudoku, post: Sudoku) -> bool {
    &&& post.board@.len() == pre.board@.len()
    &&& forall|i: int|
        0 <= i < pre.board@.len() ==> (#[trigger] post.board@[i]).possible().subset_of(
            pre.board@[i].possible(),
        )
    &&& forall|i: int|
        0 <= i < pre.board@.len() && (#[trigger] pre.board@[i]).is_fixed() ==> post.board@[i]
            == pre.board@[i]
}

/// `post` is `pre` after one elimination pass over each group of `kind`.
/// The nine groups of one kind are disjoint, so each cell of each group
/// saw exactly the digits settled in its own group when the pass began.
pub open spec fn pass_applied(kind: GroupKind, pre: Sudoku, post: Sudoku) -> bool {
    forall|n: int, k: int|
        0 <= n < 9 && 0 <= k < 9 ==> elim_rel(
            cell_at(pre, spec_group(kind, n), k),
            #[trigger] cell_at(post, spec_group(kind, n), k),
            fixed_in_group(pre, spec_group(kind, n)),
        )
}

/// `post` is `pre` after one full round of propagation: a row pass, then a
/// column pass on its outcome, then a box pass on that.
pub open spec fn round_applied(pre: Sudoku, post: Sudoku) -> bool {
    exists|mid1: Sudoku, mid2: Sudoku|
        pass_applied(GroupKind::Row, pre, mid1) && pass_applied(GroupKind::Column, mid1, mid2)
            && pass_applied(GroupKind::Box, mid2, post)
}

/// `post` is `pre` after exactly `rounds` full rounds of propagation.
pub open spec fn rounds_applied(pre: Sudoku, post: Sudoku, rounds: nat) -> bool
    decreases rounds,
{
    if rounds == 0 {
        post == pre
    } else {
        exists|mid: Sudoku|
            rounds_applied(pre, mid, (rounds - 1) as nat) && round_applied(mid, post)
    }
}

/// The fixed-point condition is exact: a round of propagation that hands
/// the board back unchanged can only have run on a board where no
/// elimination applied — every group was already stable.
pub proof fn lemma_unchanged_round_is_fixed_point(pre: Sudoku, post: Sudoku)
    requires
        pre.wf(),
        round_applied(pre, post),
        post.board@ == pre.board@,
    ensures
        at_fixed_point(pre),
{
    broadcast use vstd::seq_lib::seq_to_set_is_finite;

    let (mid1, mid2) = choose|mid1: Sudoku, mid2: Sudoku|
        pass_applied(GroupKind::Row, pre, mid1) && pass_applied(GroupKind::Column, mid1, mid2)
            && pass_applied(GroupKind::Box, mid2, post);
    // each cell went pre -> mid1 -> mid2 -> post and came back to itself;
    // possibilities only shrink along the way, so no pass changed it
    assert forall|i: int| 0 <= i < 81 implies mid1.board@[i] == pre.board@[i] && mid2.board@[i]
        == pre.board@[i] by {
        let c0 = pre.board@[i];
        let c1 = mid1.board@[i];
        let c2 = mid2.board@[i];
        let c3 = post.board@[i];
        assert(c3 == c0);
        lemma_cell_in_some_group(GroupKind::Row, i);
        let (nr, kr) = choose|n: int, k: int|
            0 <= n < 9 && 0 <= k < 9 && #[trigger] spec_group(GroupKind::Row, n)[k] == i;
        assert(cell_at(mid1, spec_group(GroupKind::Row, nr), kr) == c1);
        assert(elim_rel(c0, c1, fixed_in_group(pre, spec_group(GroupKind::Row, nr))));
        lemma_cell_in_some_group(GroupKind::Column, i);
        let (nc, kc) = choose|n: int, k: int|
            0 <= n < 9 && 0 <= k < 9 && #[trigger] spec_group(GroupKind::Column, n)[k] == i;
        assert(cell_at(mid2, spec_group(GroupKind::Column, nc), kc) == c2);
        assert(elim_rel(c1, c2, fixed_in_group(mid1, spec_group(GroupKind::Column, nc))));
        lemma_cell_in_some_group(GroupKind::Box, i);
        let (nb, kb) = choose|n: int, k: int|
            0 <= n < 9 && 0 <= k < 9 && #[trigger] spec_group(GroupKind::Box, n)[k] == i;
        assert(cell_at(post, spec_group(GroupKind::Box, nb), kb) == c3);
        assert(elim_rel(c2, c3, fixed_in_group(mid2, spec_group(GroupKind::Box, nb))));
        lemma_elim_rel_narrows(c0, c1, fixed_in_group(pre, spec_group(GroupKind::Row, nr)));
        lemma_elim_rel_narrows(c1, c2, fixed_in_group(mid1, spec_group(GroupKind::Column, nc)));
        lemma_elim_rel_narrows(c2, c3, fixed_in_group(mid2, spec_group(GroupKind::Box, nb)));
        vstd::set_lib::lemma_len_subset(c3.possible(), c2.possible());
        vstd::set_lib::lemma_len_subset(c2.possible(), c1.possible());
        vstd::set_lib::lemma_len_subset(c1.possible(), c0.possible());
        if c1 != c0 {
            if c1.possible().len() < c0.possible().len() {
                assert(false);
            } else {
                assert(c1.is_fixed() && !c0.is_fixed());
                assert(c2 == c1);
                assert(c3 == c2);
                assert(false);
            }
        }
        if c2 != c1 {
            if c2.possible().len() < c1.possible().len() {
                assert(false);
            } else {
                assert(c2.is_fixed() && !c1.is_fixed());
                assert(c3 == c2);
                assert(false);
            }
        }
    }
    // with every cell unchanged by every pass, no pass had anything to do
    assert forall|kind: GroupKind, n: int| 0 <= n < 9 implies group_stable(
        pre,
        #[trigger] spec_group(kind, n),
    ) by {
        lemma_group_shape(kind, n);
        let g = spec_group(kind, n);
        let a = match kind {
            GroupKind::Row => pre,
            GroupKind::Column => mid1,
            GroupKind::Box => mid2,
        };
        let b = match kind {
            GroupKind::Row => mid1,
            GroupKind::Column => mid2,
            GroupKind::Box => post,
        };
        assert forall|k: int| 0 <= k < g.len() implies (#[trigger] cell_at(pre, g, k)).is_fixed()
            || cell_at(pre, g, k).cands().disjoint(fixed_in_group(pre, g)) by {
            assert(g[k] < 81);
            assert(cell_at(a, g, k) == cell_at(pre, g, k));
            assert(cell_at(b, g, k) == cell_at(pre, g, k));
            assert(elim_rel(cell_at(a, g, k), cell_at(b, g, k), fixed_in_group(a, g)));
            assert(fixed_in_group(a, g) =~= fixed_in_group(pre, g)) by {
                assert forall|d: u8| fixed_in_group(a, g).contains(d) implies fixed_in_group(
                    pre,
                    g,
                ).contains(d) by {
                    let k1 = choose|k1: int|
                        0 <= k1 < g.len() && (#[trigger] cell_at(a, g, k1)).is_fixed() && cell_at(
                            a,
                            g,
                            k1,
                        ).digit() == d;
                    assert(cell_at(pre, g, k1) == cell_at(a, g, k1));
                }
                assert forall|d: u8| fixed_in_group(pre, g).contains(d) implies fixed_in_group(
                    a,
                    g,
                ).contains(d) by {
                    let k1 = choose|k1: int|
                        0 <= k1 < g.len() && (#[trigger] cell_at(pre, g, k1)).is_fixed() && cell_at(
                            pre,
                            g,
                            k1,
                        ).digit() == d;
                    assert(cell_at(a, g, k1) == cell_at(pre, g, k1));
                }
            }
            lemma_elim_rel_fixed_cell(cell_at(pre, g, k), fixed_in_group(pre, g));
        }
    }
}

impl Sudoku {
    /// Well-formedness: exactly 81 cells, each well-formed.
    pub open spec fn wf(self) -> bool {
        self.board@.len() == 81 && (forall|i: int|
            0 <= i < 81 ==> (#[trigger] self.board@[i]).wf())
    }

    /// Every cell has settled on a digit.
    pub open spec fn all_fixed(self) -> bool {
        forall|i: int| 0 <= i < self.board@.len() ==> (#[trigger] self.board@[i]).is_fixed()
    }

    /// A board of 81 fully open cells.
    pub fn new() -> (s: Sudoku)
        ensures
            s.wf(),
            forall|i: int|
                0 <= i < 81 ==> !(#[trigger] s.board@[i]).is_fixed() && s.board@[i].cand_seq()
                    == full_cand_seq(),
    {
        proof {
            lemma_full_cand_seq();
        }
        let mut board: Vec<SudokuCell> = Vec::new();
        let mut i: usize = 0;
        while i < 81
            invariant
                i <= 81,
                board@.len() == i,
                forall|j: int|
                    0 <= j < i ==> !(#[trigger] board@[j]).is_fixed() && board@[j].cand_seq()
                        == full_cand_seq() && board@[j].wf(),
            decreases 81 - i,
        {
            board.push(SudokuCell(Cell::Possibly(SudokuCell::all())));
            i += 1;
        }
        Sudoku { board }
    }

    /// True when every cell has settled on a digit.
    pub fn finished(&self) -> (r: bool)
        ensures
            r == self.all_fixed(),
    {
        let mut i: usize = 0;
        while i < self.board.len()
            invariant
                i <= self.board@.len(),
                forall|j: int| 0 <= j < i ==> (#[trigger] self.board@[j]).is_fixed(),
            decreases self.board@.len() - i,
        {
            if !self.board[i].0.finished() {
                return false;
            }
            i += 1;
        }
        true
    }

    /// The board index of the cell in row `row`, column `column`.
    pub fn index(row: usize, column: usize) -> (r: usize)
        requires
            row < 9,
            column < 9,
        ensures
            r == row * 9 + column,
            r < 81,
    {
        row * 9 + column
    }

    /// The nine board indices of row `row`.
    pub fn row_indices(row: usize) -> (r: [usize; 9])
        requires
            row < 9,
        ensures
            r@ == spec_row_group(row as int),
    {
        let b = Self::index(row, 0);
        let r = [b, b + 1, b + 2, b + 3, b + 4, b + 5, b + 6, b + 7, b + 8];
        proof {
            assert(r@ =~= spec_row_group(row as int));
        }
        r
    }

    /// The nine board indices of column `column`.
    pub fn column_indices(column: usize) -> (r: [usize; 9])
        requires
            column < 9,
        ensures
            r@ == spec_col_group(column as int),
    {
        let c = column;
        let r = [c, c + 9, c + 18, c + 27, c + 36, c + 45, c + 54, c + 63, c + 72];
        proof {
            assert(r@ =~= spec_col_group(column as int));
        }
        r
    }

    /// The nine board indices of box `box_index`.
    pub fn box_indices(box_index: usize) -> (r: [usize; 9])
        requires
            box_index < 9,
        ensures
            r@ == spec_box_group(box_index as int),
    {
        let base_row = box_index % 3;
        let base_column = box_index / 3;
        let b = Self::index(base_row * 3, base_column * 3);
        let r = [b, b + 1, b + 2, b + 9, b + 10, b + 11, b + 18, b + 19, b + 20];
        proof {
            assert(b == box_base(box_index as int));
            assert(r@ =~= spec_box_group(box_index as int));
        }
        r
    }

    /// One elimination pass over one constraint group: collect the digits
    /// settled among the nine referenced cells, then eliminate every one of
    /// them from every cell of the group (a no-op on settled cells). The
    /// pass fails exactly when some cell of the group is open with a lone
    /// candidate that is settled elsewhere in the group; the board is left
    /// as it stood for inspection.
    pub fn solve_constraint(&mut self, indices: [usize; 9]) -> (r: Result<(), ContradictionError>)
        requires
            old(self).wf(),
            forall|k: int| 0 <= k < 9 ==> indices@[k] < 81,
            indices@.no_duplicates(),
        ensures
            final(self).wf(),
            narrows(*old(self), *final(self)),
            forall|i: int|
                0 <= i < 81 && !indices@.contains(i as usize) ==> #[trigger] final(self).board@[i]
                    == old(self).board@[i],
            r is Ok ==> forall|k: int|
                0 <= k < 9 ==> elim_rel(
                    cell_at(*old(self), indices@, k),
                    #[trigger] cell_at(*final(self), indices@, k),
                    fixed_in_group(*old(self), indices@),
                ),
            (r is Err) == group_contradiction(*old(self), indices@),
            r is Err ==> group_contradiction(*final(self), indices@),
            group_stable(*old(self), indices@) ==> final(self).board@ == old(self).board@,
    {
        let ghost pre = *self;
        let ghost g = indices@;
        let ghost vset = fixed_in_group(pre, g);

        // collect the digits settled in the group
        let mut values: Vec<u8> = Vec::new();
        let mut k: usize = 0;
        while k < 9
            invariant
                *self == pre,
                pre.wf(),
                g == indices@,
                forall|kk: int| 0 <= kk < 9 ==> #[trigger] g[kk] < 81,
                k <= 9,
                forall|j: int| 0 <= j < values@.len() ==> vset.contains(#[trigger] values@[j]),
                forall|kk: int|
                    0 <= kk < k && (#[trigger] cell_at(pre, g, kk)).is_fixed()
                        ==> values@.contains(cell_at(pre, g, kk).digit()),
                vset == fixed_in_group(pre, g),
            decreases 9 - k,
        {
            let idx = indices[k];
            let ghost values_before = values@;
            match self.board[idx].0.get() {
                Some(d) => {
                    values.push(*d);
                    proof {
                        assert(values@[values_before.len() as int] == cell_at(pre, g, k as int)
                            .digit());
                        assert(vset.contains(cell_at(pre, g, k as int).digit()));
                    }
                },
                None => {},
            }
            proof {
                assert forall|kk: int|
                    0 <= kk < k + 1 && (#[trigger] cell_at(pre, g, kk)).is_fixed() implies values@
                    .contains(cell_at(pre, g, kk).digit()) by {
                    if kk < k {
                        let j = choose|j: int|
                            0 <= j < values_before.len() && values_before[j] == cell_at(
                                pre,
                                g,
                                kk,
                            ).digit();
                        assert(values@[j] == cell_at(pre, g, kk).digit());
                    }
                }
            }
            k += 1;
        }
        proof {
            assert(values@.to_set() =~= vset) by {
                assert forall|d: u8| values@.to_set().contains(d) implies vset.contains(d) by {
                    let j = choose|j: int| 0 <= j < values@.len() && values@[j] == d;
                }
                assert forall|d: u8| vset.contains(d) implies values@.to_set().contains(d) by {
                    let kk = choose|kk: int|
                        0 <= kk < 9 && (#[trigger] cell_at(pre, g, kk)).is_fixed() && cell_at(
                            pre,
                            g,
                            kk,
                        ).digit() == d;
                    let j = choose|j: int| 0 <= j < values@.len() && values@[j] == d;
                }
            }
        }

        // eliminate each collected digit from every cell of the group
        let ghost vseq = values@;
        let nv = values.len();
        let mut j: usize = 0;
        while j < nv
            invariant
                pre == *old(self),
                pre.wf(),
                g == indices@,
                g.no_duplicates(),
                forall|kk: int| 0 <= kk < 9 ==> #[trigger] g[kk] < 81,
                vset == fixed_in_group(pre, g),
                values@ == vseq,
                nv == vseq.len(),
                vseq.to_set() == vset,
                j <= nv,
                self.board@.len() == 81,
                forall|i: int| 0 <= i < 81 ==> (#[trigger] self.board@[i]).wf(),
                narrows(pre, *self),
                forall|i: int|
                    0 <= i < 81 && !g.contains(i as usize) ==> #[trigger] self.board@[i]
                        == pre.board@[i],
                forall|kk: int|
                    0 <= kk < 9 ==> elim_rel(
                        cell_at(pre, g, kk),
                        #[trigger] cell_at(*self, g, kk),
                        vseq.subrange(0, j as int).to_set(),
                    ),
                forall|kk: int|
                    0 <= kk < 9 && contradicted_cell(#[trigger] cell_at(pre, g, kk), vset)
                        ==> cell_at(pre, g, kk).cands().disjoint(
                        vseq.subrange(0, j as int).to_set(),
                    ),
                group_stable(pre, g) ==> self.board@ == pre.board@,
            decreases nv - j,
        {
            let v = values[j];
            let ghost vp = vseq.subrange(0, j as int).to_set();
            let mut k2: usize = 0;
            while k2 < 9
                invariant
                    pre == *old(self),
                    pre.wf(),
                    g == indices@,
                    g.no_duplicates(),
                    forall|kk: int| 0 <= kk < 9 ==> #[trigger] g[kk] < 81,
                    vset == fixed_in_group(pre, g),
                    values@ == vseq,
                    nv == vseq.len(),
                    vseq.to_set() == vset,
                    j < nv,
                    v == vseq[j as int],
                    vp == vseq.subrange(0, j as int).to_set(),
                    k2 <= 9,
                    self.board@.len() == 81,
                    forall|i: int| 0 <= i < 81 ==> (#[trigger] self.board@[i]).wf(),
                    narrows(pre, *self),
                    forall|i: int|
                        0 <= i < 81 && !g.contains(i as usize) ==> #[trigger] self.board@[i]
                            == pre.board@[i],
                    forall|kk: int|
                        0 <= kk < k2 ==> elim_rel(
                            cell_at(pre, g, kk),
                            #[trigger] cell_at(*self, g, kk),
                            vp.insert(v),
                        ),
                    forall|kk: int|
                        k2 <= kk < 9 ==> elim_rel(
                            cell_at(pre, g, kk),
                            #[trigger] cell_at(*self, g, kk),
                            vp,
                        ),
                    forall|kk: int|
                        0 <= kk < k2 && contradicted_cell(#[trigger] cell_at(pre, g, kk), vset)
                            ==> cell_at(pre, g, kk).cands().disjoint(vp.insert(v)),
                    forall|kk: int|
                        k2 <= kk < 9 && contradicted_cell(#[trigger] cell_at(pre, g, kk), vset)
                            ==> cell_at(pre, g, kk).cands().disjoint(vp),
                    group_stable(pre, g) ==> self.board@ == pre.board@,
                decreases 9 - k2,
            {
                let idx = indices[k2];
                let ghost board_before = self.board@;
                let ghost before_cell = self.board@[idx as int];
                let ghost orig_cell = cell_at(pre, g, k2 as int);
                proof {
                    assert(before_cell == cell_at(*self, g, k2 as int));
                    assert(elim_rel(orig_cell, before_cell, vp));
                    assert forall|kk: int| 0 <= kk < k2 implies elim_rel(
                        cell_at(pre, g, kk),
                        board_before[g[kk] as int],
                        vp.insert(v),
                    ) by {
                        assert(cell_at(*self, g, kk) == board_before[g[kk] as int]);
                    }
                    assert forall|kk: int| k2 <= kk < 9 implies elim_rel(
                        cell_at(pre, g, kk),
                        board_before[g[kk] as int],
                        vp,
                    ) by {
                        assert(cell_at(*self, g, kk) == board_before[g[kk] as int]);
                    }
                }
                let res = self.board[idx].eliminate(v);
                let ghost after_cell = self.board@[idx as int];
                proof {
                    assert(self.board@ == board_before.update(idx as int, after_cell));
                    assert(g.contains(g[k2 as int]));
                    assert forall|kk: int| 0 <= kk < 9 && kk != k2 implies cell_at(*self, g, kk)
                        == board_before[g[kk] as int] by {
                        assert(g[kk] != g[k2 as int]);
                    }
                    assert(cell_at(*self, g, k2 as int) == after_cell);
                    assert(narrows(pre, *self)) by {
                        assert forall|i: int|
                            0 <= i < 81 implies (#[trigger] self.board@[i]).possible().subset_of(
                            pre.board@[i].possible(),
                        ) by {
                            if i == idx as int {
                                assert(before_cell.possible().subset_of(pre.board@[i].possible()));
                                assert(after_cell.possible().subset_of(before_cell.possible()));
                            } else {
                                assert(self.board@[i] == board_before[i]);
                            }
                        }
                        assert forall|i: int|
                            0 <= i < 81 && (#[trigger] pre.board@[i]).is_fixed() implies self
                            .board@[i] == pre.board@[i] by {
                            if i == idx as int {
                                assert(before_cell == pre.board@[i]);
                            } else {
                                assert(self.board@[i] == board_before[i]);
                            }
                        }
                    }
                }
                if res.is_err() {
                    proof {
                        assert(!before_cell.is_fixed() && before_cell.cands() == set![v]);
                        lemma_elim_rel_err(orig_cell, before_cell, vp, v);
                        assert(vset.contains(v)) by {
                            assert(vseq[j as int] == v);
                        }
                        assert(set![v].len() == 1) by {
                            assert(set![v] =~= Set::empty().insert(v));
                        }
                        assert(contradicted_cell(orig_cell, vset)) by {
                            assert forall|d: u8| orig_cell.cands().contains(d) implies vset
                                .contains(d) by {
                                assert(d == v);
                            }
                        }
                        assert(group_contradiction(pre, g));
                        // the group still shows the contradiction afterwards
                        let kk0 = choose|kk: int|
                            0 <= kk < 9 && (#[trigger] cell_at(pre, g, kk)).is_fixed() && cell_at(
                                pre,
                                g,
                                kk,
                            ).digit() == v;
                        assert(cell_at(*self, g, kk0) == cell_at(pre, g, kk0));
                        assert(fixed_in_group(*self, g).contains(v));
                        assert(cell_at(*self, g, k2 as int) == orig_cell);
                        assert(contradicted_cell(cell_at(*self, g, k2 as int), fixed_in_group(*self, g)))
                            by {
                            assert forall|d: u8| orig_cell.cands().contains(d) implies
                                fixed_in_group(*self, g).contains(d) by {
                                assert(d == v);
                            }
                        }
                        assert(group_contradiction(*self, g));
                        // a stable group never reaches this point
                        if group_stable(pre, g) {
                            assert(cell_at(pre, g, k2 as int).cands().contains(v));
                            assert(false);
                        }
                    }
                    return Err(ContradictionError);
                }
                proof {
                    lemma_elim_rel_step(orig_cell, before_cell, after_cell, vp, v);
                    if contradicted_cell(orig_cell, vset) {
                        assert(orig_cell.cands().disjoint(vp.insert(v))) by {
                            orig_cell.lemma_possible_finite();
                            let x = orig_cell.cands().choose();
                            assert(orig_cell.cands().contains(x));
                            if x == v {
                                assert(!orig_cell.is_fixed());
                                assert(elim_rel(orig_cell, before_cell, vp));
                                assert(orig_cell.cands().disjoint(vp));
                                assert(before_cell == orig_cell);
                                assert(before_cell.cands() == set![v]) by {
                                    assert(orig_cell.cands() =~= set![v]);
                                }
                                assert(false);
                            }
                        }
                    }
                    if group_stable(pre, g) {
                        assert(before_cell == cell_at(pre, g, k2 as int));
                        if !before_cell.is_fixed() {
                            assert(vset.contains(v)) by {
                                assert(vseq[j as int] == v);
                            }
                            assert(!before_cell.cands().contains(v));
                        }
                        assert(after_cell == before_cell);
                        assert(self.board@ =~= pre.board@);
                    }
                    assert forall|kk: int| 0 <= kk < k2 + 1 implies elim_rel(
                        cell_at(pre, g, kk),
                        #[trigger] cell_at(*self, g, kk),
                        vp.insert(v),
                    ) by {
                        if kk == k2 {
                            assert(cell_at(*self, g, kk) == after_cell);
                        } else {
                            assert(cell_at(*self, g, kk) == board_before[g[kk] as int]);
                        }
                    }
                    assert forall|kk: int| k2 + 1 <= kk < 9 implies elim_rel(
                        cell_at(pre, g, kk),
                        #[trigger] cell_at(*self, g, kk),
                        vp,
                    ) by {
                        assert(cell_at(*self, g, kk) == board_before[g[kk] as int]);
                    }
                }
                k2 += 1;
            }
            proof {
                assert(vseq.subrange(0, j as int).push(vseq[j as int]) =~= vseq.subrange(
                    0,
                    j as int + 1,
                ));
                lemma_push_to_set(vseq.subrange(0, j as int), v);
            }
            j += 1;
        }
        proof {
            assert(vseq.subrange(0, nv as int) =~= vseq);
            assert(!group_contradiction(pre, g)) by {
                if group_contradiction(pre, g) {
                    let kk = choose|kk: int|
                        0 <= kk < 9 && contradicted_cell(
                            #[trigger] cell_at(pre, g, kk),
                            fixed_in_group(pre, g),
                        );
                    let c = cell_at(pre, g, kk);
                    c.lemma_possible_finite();
                    let x = c.cands().choose();
                    assert(c.cands().contains(x));
                    assert(vset.contains(x));
                    assert(c.cands().disjoint(vseq.subrange(0, nv as int).to_set()));
                }
            }
        }
        Ok(())
    }

    /// One elimination pass over each of the nine groups of one kind, in
    /// order. Fails as soon as one group's pass fails, leaving the board
    /// for inspection. Since the nine groups of a kind are disjoint, each
    /// group's cells see exactly one pass, against the digits that were
    /// settled in that group when the round began.
    fn solve_kind(&mut self, kind: GroupKind) -> (r: Result<(), ContradictionError>)
        requires
            old(self).wf(),
        ensures
            final(self).wf(),
            narrows(*old(self), *final(self)),
            r is Ok ==> pass_applied(kind, *old(self), *final(self)),
            (r is Err) == exists|n: int|
                0 <= n < 9 && group_contradiction(*old(self), #[trigger] spec_group(kind, n)),
            r is Err ==> exists|n: int|
                0 <= n < 9 && group_contradiction(*final(self), spec_group(kind, n)),
            kind_stable(*old(self), kind) ==> r is Ok && final(self).board@ == old(self).board@,
    {
        let ghost pre = *self;
        let mut n: usize = 0;
        while n < 9
            invariant
                pre == *old(self),
                pre.wf(),
                n <= 9,
                self.board@.len() == 81,
                forall|i: int| 0 <= i < 81 ==> (#[trigger] self.board@[i]).wf(),
                narrows(pre, *self),
                forall|m: int, k: int|
                    n <= m < 9 && 0 <= k < 9 ==> #[trigger] cell_at(*self, spec_group(kind, m), k)
                        == cell_at(pre, spec_group(kind, m), k),
                forall|m: int, k: int|
                    0 <= m < n && 0 <= k < 9 ==> elim_rel(
                        cell_at(pre, spec_group(kind, m), k),
                        #[trigger] cell_at(*self, spec_group(kind, m), k),
                        fixed_in_group(pre, spec_group(kind, m)),
                    ),
                forall|m: int| 0 <= m < n ==> !group_contradiction(pre, #[trigger] spec_group(kind, m)),
                kind_stable(pre, kind) ==> self.board@ == pre.board@,
            decreases 9 - n,
        {
            let indices = match kind {
                GroupKind::Row => Self::row_indices(n),
                GroupKind::Column => Self::column_indices(n),
                GroupKind::Box => Self::box_indices(n),
            };
            let ghost gn = spec_group(kind, n as int);
            let ghost mid = *self;
            proof {
                lemma_group_shape(kind, n as int);
                assert(indices@ == gn);
                assert forall|k: int| 0 <= k < 9 implies #[trigger] cell_at(mid, gn, k) == cell_at(
                    pre,
                    gn,
                    k,
                ) by {}
                assert(fixed_in_group(mid, gn) =~= fixed_in_group(pre, gn)) by {
                    assert forall|d: u8| fixed_in_group(mid, gn).contains(d) implies fixed_in_group(
                        pre,
                        gn,
                    ).contains(d) by {
                        let k = choose|k: int|
                            0 <= k < 9 && (#[trigger] cell_at(mid, gn, k)).is_fixed() && cell_at(
                                mid,
                                gn,
                                k,
                            ).digit() == d;
                        assert(cell_at(pre, gn, k).is_fixed() && cell_at(pre, gn, k).digit() == d);
                    }
                    assert forall|d: u8| fixed_in_group(pre, gn).contains(d) implies fixed_in_group(
                        mid,
                        gn,
                    ).contains(d) by {
                        let k = choose|k: int|
                            0 <= k < 9 && (#[trigger] cell_at(pre, gn, k)).is_fixed() && cell_at(
                                pre,
                                gn,
                                k,
                            ).digit() == d;
                        assert(cell_at(mid, gn, k).is_fixed() && cell_at(mid, gn, k).digit() == d);
                    }
                }
                assert(group_contradiction(mid, gn) == group_contradiction(pre, gn)) by {
                    if group_contradiction(mid, gn) {
                        let k = choose|k: int|
                            0 <= k < gn.len() && contradicted_cell(
                                #[trigger] cell_at(mid, gn, k),
                                fixed_in_group(mid, gn),
                            );
                        assert(contradicted_cell(cell_at(pre, gn, k), fixed_in_group(pre, gn)));
                    }
                    if group_contradiction(pre, gn) {
                        let k = choose|k: int|
                            0 <= k < gn.len() && contradicted_cell(
                                #[trigger] cell_at(pre, gn, k),
                                fixed_in_group(pre, gn),
                            );
                        assert(contradicted_cell(cell_at(mid, gn, k), fixed_in_group(mid, gn)));
                    }
                }
                if kind_stable(pre, kind) {
                    lemma_same_cells_group_facts(mid, pre, gn);
                    assert(group_stable(mid, gn));
                }
                // facts about already processed groups, kept across the call
                assert forall|m: int, k: int| 0 <= m < n && 0 <= k < 9 implies elim_rel(
                    cell_at(pre, spec_group(kind, m), k),
                    mid.board@[spec_group(kind, m)[k] as int],
                    fixed_in_group(pre, spec_group(kind, m)),
                ) by {
                    let gm = spec_group(kind, m);
                    assert(cell_at(mid, gm, k) == mid.board@[gm[k] as int]);
                }
            }
            let res = self.solve_constraint(indices);
            proof {
                lemma_narrows_trans(pre, mid, *self);
                assert(gn.contains(gn[0]));
                assert forall|m: int, k: int|
                    0 <= m < 9 && m != n && 0 <= k < 9 implies #[trigger] cell_at(
                    *self,
                    spec_group(kind, m),
                    k,
                ) == cell_at(mid, spec_group(kind, m), k) by {
                    lemma_groups_disjoint(kind, m, n as int);
                    lemma_group_shape(kind, m);
                    let i = spec_group(kind, m)[k];
                    assert(!gn.contains(i)) by {
                        if gn.contains(i) {
                            let k2 = choose|k2: int| 0 <= k2 < gn.len() && gn[k2] == i;
                            assert(spec_group(kind, n as int)[k2] != spec_group(kind, m)[k]);
                        }
                    }
                    assert(self.board@[i as int] == mid.board@[i as int]);
                }
                match res {
                    Ok(_) => {
                        assert forall|k: int| 0 <= k < 9 implies elim_rel(
                            cell_at(pre, gn, k),
                            #[trigger] cell_at(*self, gn, k),
                            fixed_in_group(pre, gn),
                        ) by {
                            assert(elim_rel(
                                cell_at(mid, gn, k),
                                cell_at(*self, gn, k),
                                fixed_in_group(mid, gn),
                            ));
                        }
                        if kind_stable(pre, kind) {
                            assert(self.board@ == mid.board@);
                        }
                    },
                    Err(_) => {
                        assert(group_contradiction(mid, gn));
                        if kind_stable(pre, kind) {
                            lemma_stable_not_contradicted(mid, gn);
                            assert(false);
                        }
                    },
                }
            }
            if res.is_err() {
                proof {
                    assert(group_contradiction(*self, spec_group(kind, n as int)));
                }
                return Err(ContradictionError);
            }
            n += 1;
        }
        Ok(())
    }

    /// One elimination pass over each of the nine rows.
    pub fn solve_rows(&mut self) -> (r: Result<(), ContradictionError>)
        requires
            old(self).wf(),
        ensures
            final(self).wf(),
            narrows(*old(self), *final(self)),
            r is Ok ==> pass_applied(GroupKind::Row, *old(self), *final(self)),
            (r is Err) == exists|n: int|
                0 <= n < 9 && group_contradiction(*old(self), #[trigger] spec_group(GroupKind::Row, n)),
            r is Err ==> exists|n: int|
                0 <= n < 9 && group_contradiction(*final(self), #[trigger] spec_group(GroupKind::Row, n)),
            kind_stable(*old(self), GroupKind::Row) ==> r is Ok && final(self).board@ == old(
                self,
            ).board@,
    {
        self.solve_kind(GroupKind::Row)
    }

    /// One elimination pass over each of the nine columns.
    pub fn solve_columns(&mut self) -> (r: Result<(), ContradictionError>)
        requires
            old(self).wf(),
        ensures
            final(self).wf(),
            narrows(*old(self), *final(self)),
            r is Ok ==> pass_applied(GroupKind::Column, *old(self), *final(self)),
            (r is Err) == exists|n: int|
                0 <= n < 9 && group_contradiction(*old(self), #[trigger] spec_group(GroupKind::Column, n)),
            r is Err ==> exists|n: int|
                0 <= n < 9 && group_contradiction(*final(self), #[trigger] spec_group(GroupKind::Column, n)),
            kind_stable(*old(self), GroupKind::Column) ==> r is Ok && final(self).board@ == old(
                self,
            ).board@,
    {
        self.solve_kind(GroupKind::Column)
    }

    /// One elimination pass over each of the nine boxes.
    pub fn solve_boxes(&mut self) -> (r: Result<(), ContradictionError>)
        requires
            old(self).wf(),
        ensures
            final(self).wf(),
            narrows(*old(self), *final(self)),
            r is Ok ==> pass_applied(GroupKind::Box, *old(self), *final(self)),
            (r is Err) == exists|n: int|
                0 <= n < 9 && group_contradiction(*old(self), #[trigger] spec_group(GroupKind::Box, n)),
            r is Err ==> exists|n: int|
                0 <= n < 9 && group_contradiction(*final(self), #[trigger] spec_group(GroupKind::Box, n)),
            kind_stable(*old(self), GroupKind::Box) ==> r is Ok && final(self).board@ == old(
                self,
            ).board@,
    {
        self.solve_kind(GroupKind::Box)
    }

    /// One full round of propagation: a pass over all rows, then all
    /// columns, then all boxes, in that fixed order. A board at a fixed
    /// point is left exactly unchanged.
    pub fn step(&mut self) -> (r: Result<(), ContradictionError>)
        requires
            old(self).wf(),
        ensures
            final(self).wf(),
            narrows(*old(self), *final(self)),
            r is Ok ==> round_applied(*old(self), *final(self)),
            at_fixed_point(*old(self)) ==> r is Ok && final(self).board@ == old(self).board@,
            r is Err ==> board_contradiction(*final(self)),
            board_contradiction(*old(self)) ==> r is Err,
    {
        let ghost pre = *self;
        let res_rows = self.solve_rows();
        let ghost after_rows = *self;
        if res_rows.is_err() {
            proof {
                let n = choose|n: int|
                    0 <= n < 9 && group_contradiction(*self, #[trigger] spec_group(GroupKind::Row, n));
                assert(group_contradiction(*self, spec_group(GroupKind::Row, n)));
            }
            return Err(ContradictionError);
        }
        proof {
            if at_fixed_point(pre) {
                assert forall|kind: GroupKind, n: int| 0 <= n < 9 implies group_stable(
                    after_rows,
                    #[trigger] spec_group(kind, n),
                ) by {
                    lemma_same_cells_group_facts(after_rows, pre, spec_group(kind, n));
                }
            }
        }
        let res_cols = self.solve_columns();
        let ghost after_cols = *self;
        if res_cols.is_err() {
            proof {
                lemma_narrows_trans(pre, after_rows, *self);
                let n = choose|n: int|
                    0 <= n < 9 && group_contradiction(*self, #[trigger] spec_group(GroupKind::Column, n));
                assert(group_contradiction(*self, spec_group(GroupKind::Column, n)));
            }
            return Err(ContradictionError);
        }
        proof {
            if at_fixed_point(pre) {
                assert(after_cols.board@ == pre.board@);
                assert forall|kind: GroupKind, n: int| 0 <= n < 9 implies group_stable(
                    after_cols,
                    #[trigger] spec_group(kind, n),
                ) by {
                    lemma_same_cells_group_facts(after_cols, pre, spec_group(kind, n));
                }
            }
        }
        let res_boxes = self.solve_boxes();
        proof {
            lemma_narrows_trans(pre, after_rows, after_cols);
            lemma_narrows_trans(pre, after_cols, *self);
        }
        if res_boxes.is_err() {
            proof {
                let n = choose|n: int|
                    0 <= n < 9 && group_contradiction(*self, #[trigger] spec_group(GroupKind::Box, n));
                assert(group_contradiction(*self, spec_group(GroupKind::Box, n)));
            }
            return Err(ContradictionError);
        }
        proof {
            assert(round_applied(pre, *self)) by {
                assert(pass_applied(GroupKind::Row, pre, after_rows));
                assert(pass_applied(GroupKind::Column, after_rows, after_cols));
                assert(pass_applied(GroupKind::Box, after_cols, *self));
            }
            // every pass succeeded, so no contradiction was there to find:
            // a column or box contradiction would have outlived the passes
            // before its own and failed it
            if board_contradiction(pre) {
                let (kind0, n0) = choose|kind0: GroupKind, n0: int|
                    0 <= n0 < 9 && group_contradiction(pre, #[trigger] spec_group(kind0, n0));
                lemma_group_shape(kind0, n0);
                let g = spec_group(kind0, n0);
                match kind0 {
                    GroupKind::Row => {
                        assert(false);
                    },
                    GroupKind::Column => {
                        lemma_pass_keeps_contradiction(GroupKind::Row, pre, after_rows, g);
                        assert(false);
                    },
                    GroupKind::Box => {
                        lemma_pass_keeps_contradiction(GroupKind::Row, pre, after_rows, g);
                        lemma_pass_keeps_contradiction(
                            GroupKind::Column,
                            after_rows,
                            after_cols,
                            g,
                        );
                        assert(false);
                    },
                }
            }
        }
        Ok(())
    }

    /// Run rounds of propagation until every cell is settled, a round
    /// fails on a contradiction, or the round limit is reached with cells
    /// still open. The board is left with whatever was deduced.
    pub fn solve(&mut self) -> (r: SolveOutcome)
        requires
            old(self).wf(),
        ensures
            final(self).wf(),
            narrows(*old(self), *final(self)),
            (r is Solved) == final(self).all_fixed(),
            r is Contradiction ==> board_contradiction(*final(self)),
            r is Solved ==> exists|n: nat|
                n <= ROUND_LIMIT && rounds_applied(*old(self), *final(self), n),
            r is Stalled ==> rounds_applied(*old(self), *final(self), ROUND_LIMIT as nat),
            board_contradiction(*old(self)) ==> r is Contradiction,
    {
        let ghost pre = *self;
        let mut rounds: u32 = 0;
        proof {
            assert(rounds_applied(pre, *self, 0));
        }
        loop
            invariant
                pre == *old(self),
                self.wf(),
                narrows(pre, *self),
                rounds <= ROUND_LIMIT,
                rounds_applied(pre, *self, rounds as nat),
                rounds > 0 ==> !board_contradiction(pre),
            decreases ROUND_LIMIT - rounds,
        {
            if self.finished() {
                proof {
                    if rounds == 0 && board_contradiction(pre) {
                        let (kind, n) = choose|kind: GroupKind, n: int|
                            0 <= n < 9 && group_contradiction(pre, #[trigger] spec_group(kind, n));
                        lemma_group_shape(kind, n);
                        let k = choose|k: int|
                            0 <= k < 9 && contradicted_cell(
                                #[trigger] cell_at(pre, spec_group(kind, n), k),
                                fixed_in_group(pre, spec_group(kind, n)),
                            );
                        assert(!pre.board@[spec_group(kind, n)[k] as int].is_fixed());
                        assert(*self == pre);
                    }
                }
                return SolveOutcome::Solved;
            }
            if rounds == ROUND_LIMIT {
                return SolveOutcome::Stalled;
            }
            let ghost before_round = *self;
            let res = self.step();
            proof {
                lemma_narrows_trans(pre, before_round, *self);
                if res is Ok {
                    assert(rounds_applied(pre, *self, (rounds + 1) as nat)) by {
                        assert(rounds_applied(pre, before_round, rounds as nat));
                        assert(round_applied(before_round, *self));
                    }
                    if rounds == 0 {
                        assert(before_round == pre);
                        assert(!board_contradiction(pre));
                    }
                }
            }
            if res.is_err() {
                proof {
                    let (kind, n) = choose|kind: GroupKind, n: int|
                        0 <= n < 9 && group_contradiction(*self, #[trigger] spec_group(kind, n));
                    lemma_group_shape(kind, n);
                    let k = choose|k: int|
                        0 <= k < 9 && contradicted_cell(
                            #[trigger] cell_at(*self, spec_group(kind, n), k),
                            fixed_in_group(*self, spec_group(kind, n)),
                        );
                    assert(!self.board@[spec_group(kind, n)[k] as int].is_fixed());
                }
                return SolveOutcome::Contradiction;
            }
            rounds += 1;
        }
    }
}

/// Appending to a sequence inserts into its set of entries.
proof fn lemma_push_to_set(s: Seq<u8>, x: u8)
    ensures
        s.push(x).to_set() == s.to_set().insert(x),
{
    assert forall|d: u8| s.push(x).to_set().contains(d) implies s.to_set().insert(x).contains(
        d,
    ) by {
        let j = choose|j: int| 0 <= j < s.push(x).len() && s.push(x)[j] == d;
        if j < s.len() {
            assert(s[j] == d);
        }
    }
    assert forall|d: u8| s.to_set().insert(x).contains(d) implies s.push(x).to_set().contains(
        d,
    ) by {
        if d == x {
            assert(s.push(x)[s.len() as int] == d);
        } else {
            let j = choose|j: int| 0 <= j < s.len() && s[j] == d;
            assert(s.push(x)[j] == d);
        }
    }
    assert(s.push(x).to_set() =~= s.to_set().insert(x));
}

/// One more elimination extends the accumulated effect: if `now` is `orig`
/// after the digits in `vp` were eliminated, and one successful
/// `eliminate(v)` turns `now` into `post`, then `post` is `orig` after the
/// digits in `vp + {v}` were eliminated.
proof fn lemma_elim_rel_step(orig: SudokuCell, now: SudokuCell, post: SudokuCell, vp: Set<u8>, v: u8)
    requires
        orig.wf(),
        elim_rel(orig, now, vp),
        crate::cell::elim_post(now, post, v, true),
    ensures
        elim_rel(orig, post, vp.insert(v)),
{
    if !orig.is_fixed() {
        orig.lemma_possible_finite();
        let c = orig.cands();
        let rem = c.difference(vp);
        let rem2 = c.difference(vp.insert(v));
        assert(rem2 =~= rem.remove(v));
        if c.disjoint(vp) {
            assert(rem =~= c);
            if c.contains(v) {
                assert(!c.disjoint(vp.insert(v)));
                if c.len() >= 3 {
                    assert(post.cands() == c.remove(v));
                    assert(rem2 == c.remove(v));
                } else if c.len() == 2 {
                    assert(rem2 == c.remove(v));
                    assert(rem2.len() == 1);
                } else {
                    assert(c =~= set![v]);
                    assert(false);
                }
            } else {
                assert(c.disjoint(vp.insert(v)));
                assert(rem2 =~= rem);
            }
        } else {
            assert(!c.disjoint(vp.insert(v)));
            if rem.len() >= 2 {
                if now.cands().contains(v) {
                    if rem.len() >= 3 {
                        assert(post.cands() == rem.remove(v));
                    } else {
                        assert(rem.remove(v) == set![post.digit()]);
                        assert(rem2.len() == 1);
                    }
                } else {
                    assert(rem2 =~= rem);
                    assert(post == now);
                }
            } else if rem.len() == 1 {
                assert(rem == set![now.digit()]);
                assert(post == now);
                assert(rem.contains(now.digit()));
                if rem2.len() != 0 {
                    assert(rem2 =~= rem);
                }
            } else {
                assert(post == now);
                assert(rem2.len() == 0) by {
                    if rem2.len() != 0 {
                        let x = rem2.choose();
                        assert(rem2.contains(x));
                        assert(rem.contains(x));
                    }
                }
            }
        }
    }
}

/// Accumulated eliminations only narrow a cell, and never silently: a
/// touched cell either lost a possibility outright or settled.
proof fn lemma_elim_rel_narrows(orig: SudokuCell, now: SudokuCell, vp: Set<u8>)
    requires
        elim_rel(orig, now, vp),
    ensures
        now.possible().subset_of(orig.possible()),
        now != orig ==> now.possible().len() < orig.possible().len() || (now.is_fixed()
            && !orig.is_fixed()),
{
    broadcast use vstd::seq_lib::seq_to_set_is_finite;

    if !orig.is_fixed() {
        let c = orig.cands();
        let rem = c.difference(vp);
        if !c.disjoint(vp) {
            let x = choose|x: u8| c.contains(x) && vp.contains(x);
            assert(rem.subset_of(c.remove(x)));
            vstd::set_lib::lemma_len_subset(rem, c.remove(x));
            if rem.len() >= 2 {
                assert(now.possible() == rem);
            } else if rem.len() == 1 {
                assert(now.possible() =~= rem);
            } else {
                assert(now.possible().subset_of(c)) by {
                    assert(c.contains(now.digit()));
                    assert forall|d: u8| now.possible().contains(d) implies c.contains(d) by {
                        assert(d == now.digit());
                    }
                }
            }
        }
    }
}

/// A cell that a full accumulated elimination left exactly as it was is a
/// cell the pass had no business with: settled, or clear of every digit
/// in `vp`.
proof fn lemma_elim_rel_fixed_cell(orig: SudokuCell, vp: Set<u8>)
    requires
        elim_rel(orig, orig, vp),
    ensures
        orig.is_fixed() || orig.cands().disjoint(vp),
{
    if !orig.is_fixed() && !orig.cands().disjoint(vp) {
        let c = orig.cands();
        let rem = c.difference(vp);
        let x = choose|x: u8| c.contains(x) && vp.contains(x);
        if rem.len() >= 2 {
            assert(c == rem);
            assert(!rem.contains(x));
            assert(false);
        }
    }
}

/// An `eliminate(v)` that fails hit a cell that the pass had not touched:
/// an open cell whose only candidate, from the start, was `v` itself.
proof fn lemma_elim_rel_err(orig: SudokuCell, now: SudokuCell, vp: Set<u8>, v: u8)
    requires
        orig.wf(),
        elim_rel(orig, now, vp),
        !now.is_fixed(),
        now.cands() == set![v],
    ensures
        now == orig,
        !orig.is_fixed(),
        orig.cands() == set![v],
{
    orig.lemma_possible_finite();
    assert(set![v].len() == 1) by {
        assert(set![v] =~= Set::empty().insert(v));
    }
    if !orig.is_fixed() {
        let c = orig.cands();
        let rem = c.difference(vp);
        if !c.disjoint(vp) {
            assert(rem.len() >= 2 && now.cands() == rem ==> false);
        }
    }
}

/// Every group points at nine distinct cells of the board.
pub proof fn lemma_group_shape(kind: GroupKind, n: int)
    requires
        0 <= n < 9,
    ensures
        spec_group(kind, n).len() == 9,
        forall|k: int| 0 <= k < 9 ==> #[trigger] spec_group(kind, n)[k] < 81,
        spec_group(kind, n).no_duplicates(),
{
}

/// Two distinct groups of one kind share no cell.
#[verifier::rlimit(50)]
pub proof fn lemma_groups_disjoint(kind: GroupKind, n1: int, n2: int)
    requires
        0 <= n1 < 9,
        0 <= n2 < 9,
        n1 != n2,
    ensures
        forall|k1: int, k2: int|
            0 <= k1 < 9 && 0 <= k2 < 9 ==> #[trigger] spec_group(kind, n1)[k1] != #[trigger] spec_group(
                kind,
                n2,
            )[k2],
{
}

/// Every board cell lies in one group of each kind: the nine groups of a
/// kind partition the board.
pub proof fn lemma_cell_in_some_group(kind: GroupKind, i: int)
    requires
        0 <= i < 81,
    ensures
        exists|n: int, k: int| 0 <= n < 9 && 0 <= k < 9 && #[trigger] spec_group(kind, n)[k] == i,
{
    match kind {
        GroupKind::Row => {
            assert(spec_group(kind, i / 9)[i % 9] == i);
        },
        GroupKind::Column => {
            assert(spec_group(kind, i % 9)[i / 9] == i);
        },
        GroupKind::Box => {
            let b = ((i % 9) / 3) * 3 + i / 27;
            let k = ((i / 9) % 3) * 3 + (i % 9) % 3;
            assert(box_base(b) == (i / 27) * 27 + ((i % 9) / 3) * 3);
            assert(box_offset(k) == ((i / 9) % 3) * 9 + (i % 9) % 3);
            assert(spec_group(kind, b)[k] == i);
        },
    }
}

/// A pass that itself found nothing to fail on keeps every group
/// contradiction the board already had: the contradicted cell's lone
/// candidate cannot be settled in the cell's own group of the pass's kind
/// (that would be a contradiction of that kind), so the pass leaves the
/// cell alone, and the settled cells it clashes with are never touched.
proof fn lemma_pass_keeps_contradiction(kind: GroupKind, pre: Sudoku, post: Sudoku, g: Seq<usize>)
    requires
        pre.wf(),
        post.board@.len() == 81,
        pass_applied(kind, pre, post),
        forall|n: int| 0 <= n < 9 ==> !group_contradiction(pre, #[trigger] spec_group(kind, n)),
        g.len() == 9,
        forall|k: int| 0 <= k < 9 ==> #[trigger] g[k] < 81,
        group_contradiction(pre, g),
    ensures
        group_contradiction(post, g),
{
    let k = choose|k: int|
        0 <= k < g.len() && contradicted_cell(#[trigger] cell_at(pre, g, k), fixed_in_group(pre, g));
    let i = g[k] as int;
    let c = cell_at(pre, g, k);
    c.lemma_possible_finite();
    let v = c.cands().choose();
    assert(c.cands().contains(v));
    assert forall|d: u8| c.cands().contains(d) implies d == v by {
        if d != v {
            assert(c.cands().remove(v).contains(d));
        }
    }
    lemma_cell_in_some_group(kind, i);
    let (n0, k0) = choose|n0: int, k0: int|
        0 <= n0 < 9 && 0 <= k0 < 9 && #[trigger] spec_group(kind, n0)[k0] == i;
    let gn = spec_group(kind, n0);
    lemma_group_shape(kind, n0);
    assert(cell_at(pre, gn, k0) == c);
    assert(!fixed_in_group(pre, gn).contains(v)) by {
        if fixed_in_group(pre, gn).contains(v) {
            assert(contradicted_cell(cell_at(pre, gn, k0), fixed_in_group(pre, gn))) by {
                assert forall|d: u8| c.cands().contains(d) implies fixed_in_group(
                    pre,
                    gn,
                ).contains(d) by {
                    assert(d == v);
                }
            }
        }
    }
    assert(elim_rel(c, cell_at(post, gn, k0), fixed_in_group(pre, gn)));
    assert(c.cands().disjoint(fixed_in_group(pre, gn))) by {
        assert forall|d: u8| c.cands().contains(d) implies !fixed_in_group(pre, gn).contains(
            d,
        ) by {
            assert(d == v);
        }
    }
    assert(cell_at(post, g, k) == c);
    assert(fixed_in_group(pre, g).subset_of(fixed_in_group(post, g))) by {
        assert forall|d: u8| fixed_in_group(pre, g).contains(d) implies fixed_in_group(
            post,
            g,
        ).contains(d) by {
            let k1 = choose|k1: int|
                0 <= k1 < g.len() && (#[trigger] cell_at(pre, g, k1)).is_fixed() && cell_at(
                    pre,
                    g,
                    k1,
                ).digit() == d;
            let i1 = g[k1] as int;
            lemma_cell_in_some_group(kind, i1);
            let (n1, k2) = choose|n1: int, k2: int|
                0 <= n1 < 9 && 0 <= k2 < 9 && #[trigger] spec_group(kind, n1)[k2] == i1;
            lemma_group_shape(kind, n1);
            assert(cell_at(pre, spec_group(kind, n1), k2) == cell_at(pre, g, k1));
            assert(elim_rel(
                cell_at(pre, spec_group(kind, n1), k2),
                cell_at(post, spec_group(kind, n1), k2),
                fixed_in_group(pre, spec_group(kind, n1)),
            ));
            assert(cell_at(post, g, k1) == cell_at(pre, g, k1));
        }
    }
    assert(contradicted_cell(cell_at(post, g, k), fixed_in_group(post, g))) by {
        assert forall|d: u8| c.cands().contains(d) implies fixed_in_group(post, g).contains(
            d,
        ) by {
            assert(fixed_in_group(pre, g).contains(d));
        }
    }
}

/// Whether two boards hold the same cells is all that the group
/// predicates look at.
proof fn lemma_same_cells_group_facts(a: Sudoku, b: Sudoku, g: Seq<usize>)
    requires
        a.board@ == b.board@,
    ensures
        fixed_in_group(a, g) == fixed_in_group(b, g),
        group_stable(a, g) == group_stable(b, g),
        group_contradiction(a, g) == group_contradiction(b, g),
{
    assert forall|k: int| 0 <= k < g.len() implies #[trigger] cell_at(a, g, k) == cell_at(
        b,
        g,
        k,
    ) by {}
    assert(fixed_in_group(a, g) =~= fixed_in_group(b, g)) by {
        assert forall|d: u8| fixed_in_group(a, g).contains(d) implies fixed_in_group(
            b,
            g,
        ).contains(d) by {
            let k = choose|k: int|
                0 <= k < g.len() && (#[trigger] cell_at(a, g, k)).is_fixed() && cell_at(
                    a,
                    g,
                    k,
                ).digit() == d;
            assert(cell_at(b, g, k).is_fixed() && cell_at(b, g, k).digit() == d);
        }
        assert forall|d: u8| fixed_in_group(b, g).contains(d) implies fixed_in_group(
            a,
            g,
        ).contains(d) by {
            let k = choose|k: int|
                0 <= k < g.len() && (#[trigger] cell_at(b, g, k)).is_fixed() && cell_at(
                    b,
                    g,
                    k,
                ).digit() == d;
            assert(cell_at(a, g, k).is_fixed() && cell_at(a, g, k).digit() == d);
        }
    }
    if group_stable(a, g) {
        assert forall|k: int| 0 <= k < g.len() implies (#[trigger] cell_at(b, g, k)).is_fixed()
            || cell_at(b, g, k).cands().disjoint(fixed_in_group(b, g)) by {
            assert(cell_at(a, g, k) == cell_at(b, g, k));
        }
    }
    if group_stable(b, g) {
        assert forall|k: int| 0 <= k < g.len() implies (#[trigger] cell_at(a, g, k)).is_fixed()
            || cell_at(a, g, k).cands().disjoint(fixed_in_group(a, g)) by {
            assert(cell_at(a, g, k) == cell_at(b, g, k));
        }
    }
    if group_contradiction(a, g) {
        let k = choose|k: int|
            0 <= k < g.len() && contradicted_cell(#[trigger] cell_at(a, g, k), fixed_in_group(a, g));
        assert(contradicted_cell(cell_at(b, g, k), fixed_in_group(b, g)));
    }
    if group_contradiction(b, g) {
        let k = choose|k: int|
            0 <= k < g.len() && contradicted_cell(#[trigger] cell_at(b, g, k), fixed_in_group(b, g));
        assert(contradicted_cell(cell_at(a, g, k), fixed_in_group(a, g)));
    }
}

/// A stable group cannot also be a contradicted one: a contradicted cell's
/// lone candidate both lies in the settled digits and avoids them.
proof fn lemma_stable_not_contradicted(s: Sudoku, g: Seq<usize>)
    requires
        s.wf(),
        forall|k: int| 0 <= k < g.len() ==> #[trigger] g[k] < 81,
        group_stable(s, g),
    ensures
        !group_contradiction(s, g),
{
    if group_contradiction(s, g) {
        let k = choose|k: int|
            0 <= k < g.len() && contradicted_cell(#[trigger] cell_at(s, g, k), fixed_in_group(s, g));
        let c = cell_at(s, g, k);
        c.lemma_possible_finite();
        let x = c.cands().choose();
        assert(c.cands().contains(x));
        assert(fixed_in_group(s, g).contains(x));
        assert(c.cands().disjoint(fixed_in_group(s, g)));
    }
}

/// Narrowing composes: two narrowing passes in a row are one.
pub proof fn lemma_narrows_trans(a: Sudoku, b: Sudoku, c: Sudoku)
    requires
        narrows(a, b),
        narrows(b, c),
    ensures
        narrows(a, c),
{
    assert forall|i: int|
        0 <= i < a.board@.len() implies (#[trigger] c.board@[i]).possible().subset_of(
        a.board@[i].possible(),
    ) by {
        assert(c.board@[i].possible().subset_of(b.board@[i].possible()));
        assert(b.board@[i].possible().subset_of(a.board@[i].possible()));
    }
    assert forall|i: int|
        0 <= i < a.board@.len() && (#[trigger] a.board@[i]).is_fixed() implies c.board@[i]
        == a.board@[i] by {
        assert(b.board@[i] == a.board@[i]);
        assert(b.board@[i].is_fixed());
    }
}

/// Every pass of one kind has nothing to do.
pub open spec fn kind_stable(s: Sudoku, kind: GroupKind) -> bool {
    forall|n: int| 0 <= n < 9 ==> group_stable(s, #[trigger] spec_group(kind, n))
}

/// No pass of any kind has anything to do: one `step` leaves the board
/// exactly as it is.
pub open spec fn at_fixed_point(s: Sudoku) -> bool {
    &&& kind_stable(s, GroupKind::Row)
    &&& kind_stable(s, GroupKind::Column)
    &&& kind_stable(s, GroupKind::Box)
}

/// Some group of the board is contradicted.
pub open spec fn board_contradiction(s: Sudoku) -> bool {
    exists|kind: GroupKind, n: int|
        0 <= n < 9 && group_contradiction(s, #[trigger] spec_group(kind, n))
}

} // verus!
