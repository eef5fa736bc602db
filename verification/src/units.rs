//! Groups of cells: a slice of references into the grid's cells, the 3x3 squares and the
//! rows and columns (lines). A group holds the indices of its cells in the grid's list.

use crate::board::{
    board_of, known_digits, known_values, members_in, members_solved, members_text, same_places,
    slice_take, unit_reduce,
};
use crate::cell::{cell, valid_known, validate, SolveError};
use vstd::prelude::*;

verus! {

broadcast use vstd::std_specs::hash::group_hash_axioms;

/// Once taking the known values fails on a prefix of the members, the rest is not visited.
pub proof fn lemma_slice_take_stops(b: Seq<Set<u8>>, members: Seq<usize>, known: Seq<u8>, k: int)
    requires
        0 <= k <= members.len(),
        slice_take(b, members.take(k), known).1 is Err,
    ensures
        slice_take(b, members, known) == slice_take(b, members.take(k), known),
    decreases members.len(),
{
    if members.len() == k {
        assert(members.take(k) == members);
    } else {
        assert(members.drop_last().take(k) == members.take(k));
        lemma_slice_take_stops(b, members.drop_last(), known, k);
    }
}

/// A list of the grid's cells, by index.
#[allow(non_camel_case_types)]
pub struct cellPtrSlice {
    pub m_cells: Vec<usize>,
}

impl cellPtrSlice {
    /// The indices of the cells.
    pub open spec fn members(&self) -> Seq<usize> {
        self.m_cells@
    }

    /// Whether every cell of the list is known.
    #[allow(non_snake_case)]
    pub fn Solved(&self, cells: &Vec<cell>) -> (res: bool)
        requires
            members_in(self.members(), cells.len() as int),
        ensures
            res == members_solved(board_of(cells@), self.members()),
    {
        let mut i: usize = 0;
        while i < self.m_cells.len()
            invariant
                i <= self.m_cells.len(),
                members_in(self.members(), cells.len() as int),
                forall|j: int| 0 <= j < i ==> (#[trigger] board_of(cells@)[self.members()[j] as int]).len() == 1,
            decreases self.m_cells.len() - i,
        {
            if !cells[self.m_cells[i]].IsKnown() {
                proof {
                    assert(board_of(cells@)[self.members()[i as int] as int].len() != 1);
                }
                return false;
            }
            i = i + 1;
        }
        true
    }

    /// The values of the known cells, in the list's order.
    #[allow(non_snake_case)]
    pub fn Known(&self, cells: &Vec<cell>) -> (res: Vec<u8>)
        requires
            members_in(self.members(), cells.len() as int),
        ensures
            res@ == known_values(board_of(cells@), self.members()),
    {
        let ghost b = board_of(cells@);
        let mut known: Vec<u8> = Vec::new();
        let mut i: usize = 0;
        while i < self.m_cells.len()
            invariant
                i <= self.m_cells.len(),
                b == board_of(cells@),
                members_in(self.members(), cells.len() as int),
                known@ == known_values(b, self.members().take(i as int)),
            decreases self.m_cells.len() - i,
        {
            let c = &cells[self.m_cells[i]];
            proof {
                let t = self.members().take(i + 1);
                assert(t.drop_last() == self.members().take(i as int));
                assert(t.last() == self.members()[i as int]);
            }
            if c.IsKnown() {
                match c.Known() {
                    Ok(v) => {
                        known.push(v);
                    },
                    Err(_) => {},
                }
            }
            i = i + 1;
        }
        proof {
            assert(self.members().take(self.m_cells.len() as int) == self.members());
        }
        known
    }

    /// Takes `known` from every cell of the list in turn, stopping at the first cell that
    /// becomes invalid; reports whether any cell lost a candidate.
    #[allow(non_snake_case)]
    pub fn TakeKnownFromPossible(&self, cells: &mut Vec<cell>, known: &[u8]) -> (res: Result<bool, SolveError>)
        requires
            members_in(self.members(), old(cells).len() as int),
        ensures
            (board_of(final(cells)@), res) == slice_take(board_of(old(cells)@), self.members(), known@),
            same_places(old(cells)@, final(cells)@),
    {
        let ghost b0 = board_of(cells@);
        let mut changed = false;
        let mut i: usize = 0;
        proof {
            assert(self.members().take(0) =~= Seq::<usize>::empty());
            assert(board_of(cells@) =~= b0);
        }
        while i < self.m_cells.len()
            invariant
                i <= self.m_cells.len(),
                members_in(self.members(), cells.len() as int),
                same_places(old(cells)@, cells@),
                b0 == board_of(old(cells)@),
                (board_of(cells@), Ok::<bool, SolveError>(changed)) == slice_take(b0, self.members().take(i as int), known@),
            decreases self.m_cells.len() - i,
        {
            let m = self.m_cells[i];
            let ghost before = cells@;
            let r = cells[m].TakeKnownFromPossible(known);
            proof {
                let t = self.members().take(i + 1);
                assert(t.drop_last() == self.members().take(i as int));
                assert(t.last() == m);
                assert(board_of(cells@) =~= board_of(before).update(m as int, cells@[m as int].candidates()));
            }
            match r {
                Err(e) => {
                    proof {
                        let t = self.members().take(i + 1);
                        assert(slice_take(b0, t.drop_last(), known@) == (board_of(before), Ok::<bool, SolveError>(changed)));
                        assert(slice_take(b0, t, known@) == (board_of(cells@), Err::<bool, SolveError>(e)));
                        lemma_slice_take_stops(b0, self.members(), known@, i + 1);
                    }
                    return Err(e);
                },
                Ok(t) => {
                    changed = changed || t;
                },
            }
            i = i + 1;
        }
        proof {
            assert(self.members().take(self.m_cells.len() as int) == self.members());
        }
        Ok(changed)
    }

    /// The list as text: each cell's value when known, `x` otherwise.
    pub fn to_string(&self, cells: &Vec<cell>) -> (res: String)
        requires
            members_in(self.members(), cells.len() as int),
        ensures
            res@ == members_text(board_of(cells@), self.members()),
    {
        let mut res = String::new();
        let mut i: usize = 0;
        while i < self.m_cells.len()
            invariant
                i <= self.m_cells.len(),
                members_in(self.members(), cells.len() as int),
                res@ == members_text(board_of(cells@), self.members().take(i as int)),
            decreases self.m_cells.len() - i,
        {
            let s = cells[self.m_cells[i]].to_string();
            res.append(s.as_str());
            proof {
                let t = self.members().take(i + 1);
                assert(t.drop_last() == self.members().take(i as int));
                assert(t.last() == self.members()[i as int]);
            }
            i = i + 1;
        }
        proof {
            assert(self.members().take(self.m_cells.len() as int) == self.members());
        }
        res
    }
}

/// What the grid asks of each of its units: whether all its cells are known, a reduction of
/// its cells by its known values, and whether its known values are valid.
pub trait Solver {
    /// The indices of the unit's cells.
    spec fn members(&self) -> Seq<usize>;

    /// Whether every cell of the unit is known.
    #[allow(non_snake_case)]
    fn Solved(&self, cells: &Vec<cell>) -> (res: Result<bool, SolveError>)
        requires
            members_in(self.members(), cells.len() as int),
        ensures
            res == Ok::<bool, SolveError>(members_solved(board_of(cells@), self.members())),
    ;

    /// Takes the values known in the unit from its other cells.
    #[allow(non_snake_case)]
    fn reducePossible(&self, cells: &mut Vec<cell>) -> (res: Result<bool, SolveError>)
        requires
            members_in(self.members(), old(cells).len() as int),
        ensures
            (board_of(final(cells)@), res) == unit_reduce(board_of(old(cells)@), self.members()),
            same_places(old(cells)@, final(cells)@),
    ;

    /// Whether the known values of the unit, which are digits, hold none twice.
    fn validate(&self, cells: &Vec<cell>) -> (res: bool)
        requires
            members_in(self.members(), cells.len() as int),
            known_digits(board_of(cells@), self.members()),
        ensures
            res == valid_known(known_values(board_of(cells@), self.members())),
    ;
}

/// Two cells of one square that are the only ones left with the same two candidates.
#[allow(non_camel_case_types)]
pub struct pair {
    pub m_values: [u8; 2],
    pub m_rowAligned: bool,
    pub m_rowOrColNum: usize,
}

/// One of the nine 3x3 squares of the grid; its cells column by column.
#[allow(non_camel_case_types)]
pub struct square {
    pub m_cells: cellPtrSlice,
}

impl Solver for square {
    open spec fn members(&self) -> Seq<usize> {
        self.m_cells.members()
    }

    fn Solved(&self, cells: &Vec<cell>) -> (res: Result<bool, SolveError>) {
        Ok(self.m_cells.Solved(cells))
    }

    fn reducePossible(&self, cells: &mut Vec<cell>) -> (res: Result<bool, SolveError>) {
        let known = self.KnownInSquare(cells);
        self.m_cells.TakeKnownFromPossible(cells, known.as_slice())
    }

    fn validate(&self, cells: &Vec<cell>) -> (res: bool) {
        let known = self.KnownInSquare(cells);
        validate(known.as_slice())
    }
}

impl square {
    /// The values of the known cells of the square.
    #[allow(non_snake_case)]
    pub fn KnownInSquare(&self, cells: &Vec<cell>) -> (res: Vec<u8>)
        requires
            members_in(self.members(), cells.len() as int),
        ensures
            res@ == known_values(board_of(cells@), self.members()),
    {
        self.m_cells.Known(cells)
    }

    /// The pairs of cells that are alone in the square with the same two candidates and lie
    /// on one line. The search for them is switched off: none is reported.
    #[allow(non_snake_case)]
    pub fn AlignedCellOnlyPairs(&self) -> (res: Vec<pair>)
        ensures
            res@.len() == 0,
    {
        Vec::new()
    }
}

/// A row (`m_rowAligned`) or a column of nine cells through the whole grid, with its number.
#[allow(non_camel_case_types)]
pub struct line {
    pub m_cells: cellPtrSlice,
    pub m_rowAligned: bool,
    pub m_rowOrColNum: usize,
}

impl Solver for line {
    open spec fn members(&self) -> Seq<usize> {
        self.m_cells.members()
    }

    fn Solved(&self, cells: &Vec<cell>) -> (res: Result<bool, SolveError>) {
        Ok(self.m_cells.Solved(cells))
    }

    fn reducePossible(&self, cells: &mut Vec<cell>) -> (res: Result<bool, SolveError>) {
        let known = self.m_cells.Known(cells);
        self.m_cells.TakeKnownFromPossible(cells, known.as_slice())
    }

    fn validate(&self, cells: &Vec<cell>) -> (res: bool) {
        let known = self.m_cells.Known(cells);
        validate(known.as_slice())
    }
}

impl line {
    /// The line as text: each cell's value when known, `x` otherwise.
    pub fn to_string(&self, cells: &Vec<cell>) -> (res: String)
        requires
            members_in(self.members(), cells.len() as int),
        ensures
            res@ == members_text(board_of(cells@), self.members()),
    {
        self.m_cells.to_string(cells)
    }
}

} // verus!
