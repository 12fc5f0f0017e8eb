//! A single board slot: a settled digit, or the digits still possible.

use vstd::prelude::*;

verus! {

/// Raised when an elimination would empty a cell's candidate set: the
/// puzzle admits no solution under the deductions made so far.
#[derive(Debug)]
pub struct ContradictionError;

/// A slot that either holds one settled value or a collection of values
/// that are still possible for it.
pub enum Cell<S, T> {
    Value(S),
    Possibly(T),
}

impl<S, T> Cell<S, T> {
    /// True exactly when the slot has settled on a value.
    pub fn finished(&self) -> (r: bool)
        ensures
            r == (self is Value),
    {
        matches!(self, Cell::Value(..))
    }

    /// The settled value, if there is one.
    pub fn get(&self) -> (r: Option<&S>)
        ensures
            self is Value ==> (r matches Some(v) && v == self->Value_0),
            self is Possibly ==> r is None,
    {
        if let Cell::Value(value) = self {
            Some(value)
        } else {
            None
        }
    }
}

/// The candidate list of a cell that is still entirely unconstrained:
/// every digit 1 through 9, in ascending order.
pub open spec fn full_cand_seq() -> Seq<u8> {
    seq![1u8, 2u8, 3u8, 4u8, 5u8, 6u8, 7u8, 8u8, 9u8]
}

/// The set of all sudoku digits.
pub open spec fn all_digits() -> Set<u8> {
    Set::new(|d: u8| 1 <= d <= 9)
}

/// The full candidate list is duplicate-free, in range, and covers
/// exactly the nine sudoku digits.
pub proof fn lemma_full_cand_seq()
    ensures
        full_cand_seq().len() == 9,
        full_cand_seq().no_duplicates(),
        forall|i: int| 0 <= i < 9 ==> 1 <= #[trigger] full_cand_seq()[i] <= 9,
        full_cand_seq().to_set() == all_digits(),
        all_digits().finite(),
        all_digits().len() == 9,
{
    assert forall|d: u8| all_digits().contains(d) implies full_cand_seq().to_set().contains(d) by {
        assert(full_cand_seq()[d - 1] == d);
    }
    assert(full_cand_seq().to_set() =~= all_digits());
    full_cand_seq().unique_seq_to_set();
}

/// One sudoku square, holding a settled digit or the list of digits that
/// remain possible for it.
pub struct SudokuCell(pub Cell<u8, Vec<u8>>);

/// What one elimination does to a well-formed square. `pre` and `post` are
/// the square before and after `eliminate(value)` ran; `ok` says whether it
/// succeeded. A settled square, and an open square that never held the
/// digit, are untouched. Removing the digit leaves the shrunken candidate
/// set, settles the square when exactly one candidate survives, and is
/// refused (leaving the square untouched) when none would.
pub open spec fn elim_post(pre: SudokuCell, post: SudokuCell, value: u8, ok: bool) -> bool {
    &&& (pre.is_fixed() ==> ok && post == pre)
    &&& (!pre.is_fixed() ==> {
        let c = pre.cands();
        &&& (!c.contains(value) ==> ok && post == pre)
        &&& (c.contains(value) && c.len() >= 3 ==> ok && !post.is_fixed() && post.cands() == c.remove(
            value,
        ))
        &&& (c.contains(value) && c.len() == 2 ==> ok && post.is_fixed() && c.remove(value)
            == set![post.digit()])
        &&& (c.contains(value) && c.len() == 1 ==> !ok && post == pre)
    })
}

/// Removing the entry at position `p` of a duplicate-free sequence removes
/// exactly the element `s[p]` from the set of entries.
proof fn lemma_remove_at_to_set(s: Seq<u8>, p: int)
    requires
        s.no_duplicates(),
        0 <= p < s.len(),
    ensures
        s.remove(p).no_duplicates(),
        s.remove(p).to_set() == s.to_set().remove(s[p]),
{
    let t = s.remove(p);
    assert forall|d: u8| t.to_set().contains(d) implies s.to_set().contains(d) && d != s[p] by {
        let j = choose|j: int| 0 <= j < t.len() && t[j] == d;
        let j0: int = if j < p {
            j
        } else {
            j + 1
        };
        assert(s[j0] == d);
        assert(j0 != p);
    }
    assert forall|d: u8| s.to_set().contains(d) && d != s[p] implies t.to_set().contains(d) by {
        let j = choose|j: int| 0 <= j < s.len() && s[j] == d;
        let j1: int = if j < p {
            j
        } else {
            j - 1
        };
        assert(t[j1] == d);
    }
    assert(t.to_set() =~= s.to_set().remove(s[p]));
}

impl SudokuCell {
    /// True when the square has settled on a digit.
    pub open spec fn is_fixed(self) -> bool {
        self.0 is Value
    }

    /// The settled digit (meaningful only when `is_fixed`).
    pub open spec fn digit(self) -> u8 {
        self.0->Value_0
    }

    /// The candidate list (meaningful only when not `is_fixed`).
    pub open spec fn cand_seq(self) -> Seq<u8> {
        self.0->Possibly_0@
    }

    /// The candidates as a set.
    pub open spec fn cands(self) -> Set<u8> {
        self.cand_seq().to_set()
    }

    /// The digits the square may still take: its settled digit, or its
    /// remaining candidates.
    pub open spec fn possible(self) -> Set<u8> {
        if self.is_fixed() {
            set![self.digit()]
        } else {
            self.cands()
        }
    }

    /// Well-formedness: a settled digit lies in 1..9; an open candidate
    /// list is non-empty, duplicate-free, and holds only digits 1..9.
    pub open spec fn wf(self) -> bool {
        match self.0 {
            Cell::Value(d) => 1 <= d <= 9,
            Cell::Possibly(vs) => vs@.no_duplicates() && vs@.len() >= 1 && (forall|i: int|
                0 <= i < vs@.len() ==> 1 <= #[trigger] vs@[i] <= 9),
        }
    }

    /// A well-formed cell has a finite, non-empty set of possible digits,
    /// no larger than the candidate list itself.
    pub proof fn lemma_possible_finite(self)
        requires
            self.wf(),
        ensures
            self.possible().finite(),
            self.possible().len() >= 1,
            self.possible().subset_of(all_digits()),
            !self.is_fixed() ==> self.cands().len() == self.cand_seq().len(),
    {
        if self.is_fixed() {
            assert(self.possible() =~= Set::empty().insert(self.digit()));
        } else {
            broadcast use vstd::seq_lib::seq_to_set_is_finite;

            self.cand_seq().unique_seq_to_set();
            assert(self.cands().contains(self.cand_seq()[0]));
        }
        assert forall|d: u8| self.possible().contains(d) implies all_digits().contains(d) by {
            if !self.is_fixed() {
                let i = choose|i: int|
                    0 <= i < self.cand_seq().len() && self.cand_seq()[i] == d;
                assert(1 <= self.cand_seq()[i] <= 9);
            }
        }
    }

    /// Erase `value` from the square's candidates. A settled square, and an
    /// open one that never held `value`, are untouched. When exactly one
    /// candidate survives the removal, the square settles on it; when none
    /// would survive, the removal is refused and the contradiction reported.
    pub fn eliminate(&mut self, value: u8) -> (r: Result<(), ContradictionError>)
        requires
            old(self).wf(),
        ensures
            final(self).wf(),
            elim_post(*old(self), *final(self), value, r is Ok),
            (r is Err) == (!old(self).is_fixed() && old(self).cands() == set![value]),
            final(self).possible().subset_of(old(self).possible()),
            old(self).is_fixed() ==> *final(self) == *old(self),
    {
        proof {
            old(self).lemma_possible_finite();
        }
        let ghost pre = *self;
        match &self.0 {
            Cell::Value(_) => Ok(()),
            Cell::Possibly(values) => {
                let ghost vs = values@;
                let n = values.len();
                let mut found: bool = false;
                let mut pos: usize = 0;
                let mut i: usize = 0;
                while i < n
                    invariant
                        n == vs.len(),
                        vs == values@,
                        i <= n,
                        found ==> pos < n && vs[pos as int] == value,
                        !found ==> forall|j: int| 0 <= j < i ==> vs[j] != value,
                    decreases n - i,
                {
                    if values[i] == value {
                        found = true;
                        pos = i;
                    }
                    i += 1;
                }
                proof {
                    vs.unique_seq_to_set();
                    if !found {
                        assert(!pre.cands().contains(value)) by {
                            if vs.to_set().contains(value) {
                                let j = choose|j: int| 0 <= j < vs.len() && vs[j] == value;
                            }
                        }
                    } else {
                        assert(vs.to_set().contains(value));
                    }
                    assert(set![value].contains(value));
                }
                if !found {
                    return Ok(());
                }
                if n == 1 {
                    proof {
                        assert(pre.cands() =~= set![value]);
                    }
                    return Err(ContradictionError);
                }
                // copy every candidate but the one found
                let mut nv: Vec<u8> = Vec::new();
                let mut j: usize = 0;
                while j < n
                    invariant
                        n == vs.len(),
                        vs == values@,
                        j <= n,
                        pos < n,
                        j <= pos ==> nv@ == vs.subrange(0, j as int),
                        j > pos ==> nv@ == vs.subrange(0, pos as int) + vs.subrange(
                            pos as int + 1,
                            j as int,
                        ),
                    decreases n - j,
                {
                    if j != pos {
                        nv.push(values[j]);
                    }
                    j += 1;
                }
                proof {
                    assert(nv@ =~= vs.remove(pos as int));
                    lemma_remove_at_to_set(vs, pos as int);
                    nv@.unique_seq_to_set();
                    assert forall|k: int| 0 <= k < nv@.len() implies 1 <= #[trigger] nv@[k]
                        <= 9 by {
                        if k < pos {
                            assert(nv@[k] == vs[k]);
                        } else {
                            assert(nv@[k] == vs[k + 1]);
                        }
                    }
                    assert(pre.cands() != set![value]) by {
                        assert(pre.cands().contains(vs[if pos == 0 {
                            1int
                        } else {
                            0int
                        }]));
                    }
                }
                if nv.len() == 1 {
                    let d = nv[0];
                    proof {
                        assert(nv@.to_set() =~= set![d]);
                        assert(pre.cands().remove(value) == set![d]);
                        assert(set![d].contains(d));
                    }
                    self.0 = Cell::Value(d);
                } else {
                    self.0 = Cell::Possibly(nv);
                }
                Ok(())
            },
        }
    }

    /// A fresh candidate list holding every digit 1 through 9.
    pub fn all() -> (r: Vec<u8>)
        ensures
            r@ == full_cand_seq(),
    {
        let mut v: Vec<u8> = Vec::new();
        v.push(1);
        v.push(2);
        v.push(3);
        v.push(4);
        v.push(5);
        v.push(6);
        v.push(7);
        v.push(8);
        v.push(9);
        proof {
            assert(v@ =~= full_cand_seq());
        }
        v
    }
}

} // verus!
