//! The grid: 81 cells, with the squares, rows and columns that look at them.

use crate::board::{
    best_guess, best_guess_prefix, board_of, board_puzzle, board_solved, board_valid, cell_index,
    cells_valid, digits_only, filled_board, guess_board, known_values, members_in, members_solved,
    members_text, pass_prefix, puzzle_entry, puzzle_view, reduce_pass, rows_text, total_possible,
    total_possible_prefix, unit_member, unit_members, unit_reduce, unit_valid,
};
use crate::cell::{
    cell, digit_set, is_digit, lemma_sorted_candidates, sorted_candidates, SolveError,
};
use crate::units::{cellPtrSlice, line, square, Solver};
use vstd::prelude::*;

verus! {

broadcast use vstd::std_specs::hash::group_hash_axioms;

/// Every unit lists nine cells of the grid.
pub proof fn lemma_unit_members_in(u: int)
    requires
        0 <= u < 27,
    ensures
        unit_members(u).len() == 9,
        members_in(unit_members(u), 81),
{
    assert forall|j: int| 0 <= j < 9 implies 0 <= #[trigger] unit_member(u, j) < 81 by {}
}

/// Cell `i` is the `i / 9`-th cell of row `i % 9`.
pub proof fn lemma_row_member(i: int)
    requires
        0 <= i < 81,
    ensures
        unit_member(9 + i % 9, i / 9) == i,
{
}

/// The grid. Cell `(x, y)` stands at index `9 * x + y` of `m_cells`; the squares, rows and
/// columns hold the indices of their cells.
pub struct Grid {
    pub m_squares: Vec<square>,
    pub m_rows: Vec<line>,
    pub m_cols: Vec<line>,
    pub m_cells: Vec<cell>,
}

/// Text shown for a grid whose cells were never set up.
pub open spec fn uninitialised_text() -> Seq<char> {
    "Grid probably not initialised"@
}

impl Grid {
    /// The candidates of each cell.
    pub open spec fn board(&self) -> Seq<Set<u8>> {
        board_of(self.m_cells@)
    }

    /// The grid is set up: 81 cells that know their place and hold digits only, and the 27
    /// units as described by `unit_members`.
    pub open spec fn wf(&self) -> bool {
        &&& self.m_cells@.len() == 81
        &&& digits_only(self.board())
        &&& forall|i: int|
            0 <= i < 81 ==> #[trigger] self.m_cells@[i].m_x == i / 9 && self.m_cells@[i].m_y == i
                % 9
        &&& self.m_squares@.len() == 9
        &&& forall|k: int| 0 <= k < 9 ==> (#[trigger] self.m_squares@[k]).members() == unit_members(k)
        &&& self.m_rows@.len() == 9
        &&& forall|r: int|
            0 <= r < 9 ==> (#[trigger] self.m_rows@[r]).members() == unit_members(9 + r)
                && self.m_rows@[r].m_rowAligned && self.m_rows@[r].m_rowOrColNum == r
        &&& self.m_cols@.len() == 9
        &&& forall|c: int|
            0 <= c < 9 ==> (#[trigger] self.m_cols@[c]).members() == unit_members(18 + c)
                && !self.m_cols@[c].m_rowAligned && self.m_cols@[c].m_rowOrColNum == c
    }

    /// Unit `u` of the grid: a square, a row or a column.
    pub open spec fn unit_of(&self, u: int) -> Seq<usize> {
        if u < 9 {
            self.m_squares@[u].members()
        } else if u < 18 {
            self.m_rows@[u - 9].members()
        } else {
            self.m_cols@[u - 18].members()
        }
    }

    /// A grid with nothing in it, to be set up by `Init`.
    pub fn empty() -> (g: Grid)
        ensures
            g.m_cells@.len() == 0,
            g.m_squares@.len() == 0,
            g.m_rows@.len() == 0,
            g.m_cols@.len() == 0,
    {
        Grid { m_squares: Vec::new(), m_rows: Vec::new(), m_cols: Vec::new(), m_cells: Vec::new() }
    }

    /// Sets the grid up afresh: every cell may take any digit.
    #[allow(non_snake_case)]
    pub fn Init(&mut self)
        ensures
            final(self).wf(),
            forall|i: int| 0 <= i < 81 ==> #[trigger] final(self).board()[i] == digit_set(),
    {
        let mut cells: Vec<cell> = Vec::new();
        let mut i: u8 = 0;
        while i < 9
            invariant
                i <= 9,
                cells@.len() == 9 * i,
                forall|k: int|
                    0 <= k < cells@.len() ==> #[trigger] cells@[k].m_x == k / 9 && cells@[k].m_y
                        == k % 9 && cells@[k].candidates() == digit_set(),
            decreases 9 - i,
        {
            let mut j: u8 = 0;
            while j < 9
                invariant
                    i < 9,
                    j <= 9,
                    cells@.len() == 9 * i + j,
                    forall|k: int|
                        0 <= k < cells@.len() ==> #[trigger] cells@[k].m_x == k / 9 && cells@[k].m_y
                            == k % 9 && cells@[k].candidates() == digit_set(),
                decreases 9 - j,
            {
                cells.push(cell::new(i, j));
                j = j + 1;
            }
            i = i + 1;
        }
        let mut squares: Vec<square> = Vec::new();
        let mut square_idx: usize = 0;
        while square_idx < 9
            invariant
                square_idx <= 9,
                squares@.len() == square_idx,
                forall|k: int| 0 <= k < square_idx ==> (#[trigger] squares@[k]).members() == unit_members(k),
            decreases 9 - square_idx,
        {
            let mut members: Vec<usize> = Vec::new();
            let mut x: usize = 0;
            while x < 3
                invariant
                    square_idx < 9,
                    x <= 3,
                    members@ == unit_members(square_idx as int).take(3 * x),
                decreases 3 - x,
            {
                let mut y: usize = 0;
                while y < 3
                    invariant
                        square_idx < 9,
                        x < 3,
                        y <= 3,
                        members@ == unit_members(square_idx as int).take(3 * x + y),
                    decreases 3 - y,
                {
                    let grid_x = 3 * (square_idx % 3) + x;
                    let grid_y = 3 * (square_idx / 3) + y;
                    members.push(9 * grid_x + grid_y);
                    proof {
                        let j = 3 * x + y;
                        assert(j / 3 == x && j % 3 == y);
                        assert(unit_member(square_idx as int, j as int) == 9 * grid_x + grid_y);
                        assert(unit_members(square_idx as int).take(j + 1) =~= unit_members(
                            square_idx as int,
                        ).take(j as int).push((9 * grid_x + grid_y) as usize));
                    }
                    y = y + 1;
                }
                x = x + 1;
            }
            proof {
                assert(unit_members(square_idx as int).take(9) =~= unit_members(square_idx as int));
            }
            squares.push(square { m_cells: cellPtrSlice { m_cells: members } });
            square_idx = square_idx + 1;
        }
        let mut rows: Vec<line> = Vec::new();
        let mut r: usize = 0;
        while r < 9
            invariant
                r <= 9,
                rows@.len() == r,
                forall|k: int|
                    0 <= k < r ==> (#[trigger] rows@[k]).members() == unit_members(9 + k)
                        && rows@[k].m_rowAligned && rows@[k].m_rowOrColNum == k,
            decreases 9 - r,
        {
            let mut members: Vec<usize> = Vec::new();
            let mut col_num: usize = 0;
            while col_num < 9
                invariant
                    r < 9,
                    col_num <= 9,
                    members@ == unit_members(9 + r).take(col_num as int),
                decreases 9 - col_num,
            {
                members.push(9 * col_num + r);
                proof {
                    assert(unit_members(9 + r).take(col_num + 1) =~= unit_members(9 + r).take(
                        col_num as int,
                    ).push((9 * col_num + r) as usize));
                }
                col_num = col_num + 1;
            }
            proof {
                assert(unit_members(9 + r).take(9) =~= unit_members(9 + r));
            }
            rows.push(line { m_cells: cellPtrSlice { m_cells: members }, m_rowAligned: true, m_rowOrColNum: r });
            r = r + 1;
        }
        let mut cols: Vec<line> = Vec::new();
        let mut c: usize = 0;
        while c < 9
            invariant
                c <= 9,
                cols@.len() == c,
                forall|k: int|
                    0 <= k < c ==> (#[trigger] cols@[k]).members() == unit_members(18 + k)
                        && !cols@[k].m_rowAligned && cols@[k].m_rowOrColNum == k,
            decreases 9 - c,
        {
            let mut members: Vec<usize> = Vec::new();
            let mut row_num: usize = 0;
            while row_num < 9
                invariant
                    c < 9,
                    row_num <= 9,
                    members@ == unit_members(18 + c).take(row_num as int),
                decreases 9 - row_num,
            {
                members.push(9 * c + row_num);
                proof {
                    assert(unit_members(18 + c).take(row_num + 1) =~= unit_members(18 + c).take(
                        row_num as int,
                    ).push((9 * c + row_num) as usize));
                }
                row_num = row_num + 1;
            }
            proof {
                assert(unit_members(18 + c).take(9) =~= unit_members(18 + c));
            }
            cols.push(line { m_cells: cellPtrSlice { m_cells: members }, m_rowAligned: false, m_rowOrColNum: c });
            c = c + 1;
        }
        self.m_cells = cells;
        self.m_squares = squares;
        self.m_rows = rows;
        self.m_cols = cols;
        proof {
            assert forall|k: int| 0 <= k < 81 implies #[trigger] self.board()[k] == digit_set() by {
                assert(self.m_cells@[k].m_x == k / 9);
            }
        }
    }

    /// Fills the grid from a puzzle given row by row: a digit makes its cell known, anything
    /// else leaves the cell free.
    #[allow(non_snake_case)]
    pub fn Fill(&mut self, puzzle: [[u8; 9]; 9])
        ensures
            final(self).wf(),
            final(self).board() == filled_board(puzzle_view(puzzle)),
    {
        self.Init();
        let ghost target = filled_board(puzzle_view(puzzle));
        let mut x: usize = 0;
        while x < 9
            invariant
                x <= 9,
                self.wf(),
                target == filled_board(puzzle_view(puzzle)),
                forall|k: int| 0 <= k < 9 * x ==> #[trigger] self.board()[k] == target[k],
                forall|k: int| 9 * x <= k < 81 ==> #[trigger] self.board()[k] == digit_set(),
            decreases 9 - x,
        {
            let mut y: usize = 0;
            while y < 9
                invariant
                    x < 9,
                    y <= 9,
                    self.wf(),
                    target == filled_board(puzzle_view(puzzle)),
                    forall|k: int| 0 <= k < 9 * x + y ==> #[trigger] self.board()[k] == target[k],
                    forall|k: int| 9 * x + y <= k < 81 ==> #[trigger] self.board()[k] == digit_set(),
                decreases 9 - y,
            {
                let puzz_val = puzzle[y][x];
                let idx = 9 * x + y;
                proof {
                    assert(idx % 9 == y && idx / 9 == x);
                    assert(puzzle_view(puzzle)[y as int][x as int] == puzz_val);
                }
                let ghost bb = self.board();
                if puzz_val >= 1 && puzz_val <= 9 {
                    self.m_cells[idx].SetKnownTo(puzz_val);
                }
                proof {
                    assert(bb[idx as int] == digit_set());
                    if is_digit(puzz_val as int) {
                        assert(self.board() =~= bb.update(idx as int, set![puzz_val]));
                    } else {
                        assert(self.board() =~= bb);
                    }
                    assert(target[idx as int] == self.board()[idx as int]);
                    assert forall|k: int| 0 <= k < 9 * x + y + 1 implies #[trigger] self.board()[k]
                        == target[k] by {
                        if k < idx {
                            assert(bb[k] == target[k]);
                        }
                    }
                }
                y = y + 1;
            }
            x = x + 1;
        }
        proof {
            assert(self.board() =~= target);
        }
    }

    /// A grid filled from a puzzle given row by row.
    #[allow(non_snake_case)]
    pub fn New(puzzle: [[u8; 9]; 9]) -> (g: Grid)
        ensures
            g.wf(),
            g.board() == filled_board(puzzle_view(puzzle)),
    {
        let mut g = Grid::empty();
        g.Init();
        g.Fill(puzzle);
        g
    }

    /// Reduces unit `u` of the grid: the squares, then the rows, then the columns.
    pub fn reduce_set(&mut self, u: usize) -> (res: Result<bool, SolveError>)
        requires
            old(self).wf(),
            u < 27,
        ensures
            final(self).wf(),
            (final(self).board(), res) == unit_reduce(old(self).board(), unit_members(u as int)),
    {
        proof {
            lemma_unit_members_in(u as int);
        }
        let ghost before = self.m_cells@;
        let res = if u < 9 {
            self.m_squares[u].reducePossible(&mut self.m_cells)
        } else if u < 18 {
            self.m_rows[u - 9].reducePossible(&mut self.m_cells)
        } else {
            self.m_cols[u - 18].reducePossible(&mut self.m_cells)
        };
        proof {
            assert forall|i: int| 0 <= i < 81 implies #[trigger] self.m_cells@[i].m_x == i / 9
                && self.m_cells@[i].m_y == i % 9 by {
                assert(before[i].m_x == i / 9);
            }
            let b0 = board_of(before);
            let ms = unit_members(u as int);
            crate::lemmas::lemma_slice_take_shrinks(b0, ms, known_values(b0, ms));
            assert forall|i: int| 0 <= i < 81 implies (#[trigger] self.board()[i]).subset_of(digit_set()) by {
                assert(b0[i].subset_of(digit_set()));
            }
        }
        res
    }

    /// Whether the known digits of unit `u` of the grid hold none twice.
    pub fn validate_set(&self, u: usize) -> (res: bool)
        requires
            self.wf(),
            u < 27,
        ensures
            res == unit_valid(self.board(), u as int),
    {
        proof {
            lemma_unit_members_in(u as int);
            crate::lemmas::lemma_known_values_digits(self.board(), unit_members(u as int));
        }
        if u < 9 {
            self.m_squares[u].validate(&self.m_cells)
        } else if u < 18 {
            self.m_rows[u - 9].validate(&self.m_cells)
        } else {
            self.m_cols[u - 18].validate(&self.m_cells)
        }
    }

    /// Whether every cell of unit `u` of the grid is known.
    pub fn solved_set(&self, u: usize) -> (res: bool)
        requires
            self.wf(),
            u < 27,
        ensures
            res == members_solved(self.board(), unit_members(u as int)),
    {
        proof {
            lemma_unit_members_in(u as int);
        }
        let res = if u < 9 {
            self.m_squares[u].Solved(&self.m_cells)
        } else if u < 18 {
            self.m_rows[u - 9].Solved(&self.m_cells)
        } else {
            self.m_cols[u - 18].Solved(&self.m_cells)
        };
        match res {
            Ok(solved) => solved,
            Err(_) => false,
        }
    }

    /// Whether every cell has between one and nine candidates and no unit holds a value
    /// that is not a digit or a value twice.
    pub fn validate(&self) -> (res: bool)
        requires
            self.wf(),
        ensures
            res == board_valid(self.board()),
    {
        let mut i: usize = 0;
        while i < 81
            invariant
                i <= 81,
                self.wf(),
                forall|k: int| 0 <= k < i ==> 1 <= (#[trigger] self.board()[k]).len() <= 9,
            decreases 81 - i,
        {
            if !self.m_cells[i].validate() {
                proof {
                    assert(!(1 <= self.board()[i as int].len() <= 9));
                }
                return false;
            }
            i = i + 1;
        }
        let mut u: usize = 0;
        while u < 27
            invariant
                u <= 27,
                self.wf(),
                cells_valid(self.board()),
                forall|v: int| 0 <= v < u ==> #[trigger] unit_valid(self.board(), v),
            decreases 27 - u,
        {
            if !self.validate_set(u) {
                return false;
            }
            u = u + 1;
        }
        true
    }

    /// Whether every cell is known.
    #[allow(non_snake_case)]
    pub fn Solved(&self) -> (res: bool)
        requires
            self.wf(),
        ensures
            res == board_solved(self.board()),
    {
        let mut u: usize = 0;
        while u < 27
            invariant
                u <= 27,
                self.wf(),
                forall|v: int| 0 <= v < u ==> #[trigger] members_solved(self.board(), unit_members(v)),
            decreases 27 - u,
        {
            if !self.solved_set(u) {
                proof {
                    let j = choose|j: int|
                        0 <= j < 9 && #[trigger] self.board()[unit_members(u as int)[j] as int].len() != 1;
                    lemma_unit_members_in(u as int);
                }
                return false;
            }
            u = u + 1;
        }
        proof {
            assert forall|i: int| 0 <= i < 81 implies (#[trigger] self.board()[i]).len() == 1 by {
                lemma_row_member(i);
                assert(members_solved(self.board(), unit_members(9 + i % 9)));
                assert(unit_members(9 + i % 9)[i / 9] == i);
            }
        }
        true
    }

    /// A placeholder for reducing squares by aligned pairs; the rule is switched off, so
    /// nothing changes.
    #[allow(non_snake_case)]
    pub fn squareExclusionReduce(&mut self) -> (res: Result<bool, SolveError>)
        ensures
            *final(self) == *old(self),
            res == Ok::<bool, SolveError>(false),
    {
        let changed = false;
        Ok(changed)
    }

    /// Two rounds over all units, each taking the values known in a unit from its other
    /// cells; stops at the first cell left with no candidate. Reports whether anything changed.
    #[allow(non_snake_case)]
    pub fn reducePossiblePass(&mut self) -> (res: Result<bool, SolveError>)
        requires
            old(self).wf(),
        ensures
            final(self).wf(),
            (final(self).board(), res) == reduce_pass(old(self).board()),
    {
        let ghost b0 = self.board();
        let mut changed = false;
        let mut pass: usize = 0;
        while pass < 2
            invariant
                pass <= 2,
                self.wf(),
                b0 == old(self).board(),
                (self.board(), Ok::<bool, SolveError>(changed)) == pass_prefix(b0, (27 * pass) as nat),
            decreases 2 - pass,
        {
            let mut i: usize = 0;
            while i < 27
                invariant
                    pass < 2,
                    i <= 27,
                    self.wf(),
                    b0 == old(self).board(),
                    (self.board(), Ok::<bool, SolveError>(changed)) == pass_prefix(b0, (27 * pass + i) as nat),
                decreases 27 - i,
            {
                let ghost n = (27 * pass + i) as nat;
                let ghost before = self.board();
                let r = self.reduce_set(i);
                proof {
                    assert((n + 1 - 1) % 27 == i);
                    assert(pass_prefix(b0, (n + 1 - 1) as nat) == (before, Ok::<bool, SolveError>(changed)));
                }
                match r {
                    Err(e) => {
                        proof {
                            assert(pass_prefix(b0, n + 1) == (self.board(), Err::<bool, SolveError>(e)));
                            lemma_pass_prefix_stops(b0, n + 1, 54);
                        }
                        return Err(e);
                    },
                    Ok(reduced) => {
                        changed = changed || reduced;
                    },
                }
                i = i + 1;
            }
            let sq_reduce = self.squareExclusionReduce();
            match sq_reduce {
                Err(e) => {
                    return Err(e);
                },
                Ok(t) => {
                    changed = changed || t;
                },
            }
            pass = pass + 1;
        }
        Ok(changed)
    }

    /// The puzzle the grid shows, row by row: each known value, and 0 for the other cells.
    #[allow(non_snake_case)]
    pub fn Puzzle(&self) -> (res: [[u8; 9]; 9])
        requires
            self.wf(),
        ensures
            puzzle_view(res) == board_puzzle(self.board()),
    {
        let mut puzzle: [[u8; 9]; 9] = [[0u8; 9]; 9];
        let mut x: usize = 0;
        while x < 9
            invariant
                x <= 9,
                self.wf(),
                forall|yy: int, xx: int|
                    0 <= yy < 9 && 0 <= xx < 9 ==> #[trigger] puzzle[yy][xx] == if xx < x {
                        puzzle_entry(self.board(), xx, yy)
                    } else {
                        0
                    },
            decreases 9 - x,
        {
            let mut y: usize = 0;
            while y < 9
                invariant
                    x < 9,
                    y <= 9,
                    self.wf(),
                    forall|yy: int, xx: int|
                        0 <= yy < 9 && 0 <= xx < 9 ==> #[trigger] puzzle[yy][xx] == if xx < x || (xx
                            == x && yy < y) {
                            puzzle_entry(self.board(), xx, yy)
                        } else {
                            0
                        },
                decreases 9 - y,
            {
                let c = &self.m_cells[9 * x + y];
                if c.IsKnown() {
                    match c.Known() {
                        Ok(v) => {
                            let mut row = puzzle[y];
                            row[x] = v;
                            puzzle[y] = row;
                        },
                        Err(_) => {
                            return puzzle;
                        },
                    }
                }
                y = y + 1;
            }
            x = x + 1;
        }
        proof {
            assert forall|y: int| 0 <= y < 9 implies puzzle_view(puzzle)[y] =~= board_puzzle(
                self.board(),
            )[y] by {}
            assert(puzzle_view(puzzle) =~= board_puzzle(self.board()));
        }
        puzzle
    }

    /// Makes `known` the only candidate of the cell at column `x` and row `y`.
    #[allow(non_snake_case)]
    pub fn setKnown(&mut self, x: usize, y: usize, known: u8)
        requires
            old(self).wf(),
            x < 9,
            y < 9,
            is_digit(known as int),
        ensures
            final(self).wf(),
            final(self).board() == old(self).board().update(cell_index(x as int, y as int), set![known]),
    {
        let ghost before = self.m_cells@;
        self.m_cells[9 * x + y].SetKnownTo(known);
        proof {
            assert forall|i: int| 0 <= i < 81 implies #[trigger] self.m_cells@[i].m_x == i / 9
                && self.m_cells@[i].m_y == i % 9 by {
                assert(before[i].m_x == i / 9);
            }
            assert(self.board() =~= board_of(before).update(cell_index(x as int, y as int), set![known]));
        }
    }

    /// A fresh grid filled from the puzzle this grid shows: known cells are copied, the others
    /// may again take any digit.
    #[allow(non_snake_case)]
    pub fn DuplicateGrid(&self) -> (g: Grid)
        requires
            self.wf(),
        ensures
            g.wf(),
            g.board() == filled_board(board_puzzle(self.board())),
    {
        Grid::New(self.Puzzle())
    }
}

impl Grid {
    /// The number of candidates of all cells that are not known.
    #[allow(non_snake_case)]
    pub fn TotalPossible(&self) -> (res: usize)
        requires
            self.wf(),
        ensures
            res == total_possible(self.board()),
    {
        let mut total_poss: usize = 0;
        let mut i: usize = 0;
        while i < 81
            invariant
                i <= 81,
                self.wf(),
                total_poss == total_possible_prefix(self.board(), i as nat),
                total_poss <= 256 * i,
            decreases 81 - i,
        {
            if !self.m_cells[i].IsKnown() {
                let val = self.m_cells[i].Possibles();
                proof {
                    lemma_sorted_candidates(self.board()[i as int]);
                    crate::cell::lemma_u8_set_len(self.board()[i as int]);
                }
                let num_poss = val.len();
                total_poss = total_poss + num_poss;
            }
            i = i + 1;
        }
        total_poss
    }

    /// The guesses the search makes: it picks the first unknown cell with the fewest
    /// candidates, and for each of its candidates, in increasing order, a fresh grid from
    /// the puzzle this grid shows in which that cell holds that candidate.
    #[allow(non_snake_case)]
    pub fn GenerateGuessGrids(&self) -> (res: Vec<Grid>)
        requires
            self.wf(),
        ensures
            best_guess(self.board()).0 < 0 ==> res@.len() == 0,
            best_guess(self.board()).0 >= 0 ==> {
                let idx = best_guess(self.board()).0;
                let cands = sorted_candidates(self.board()[idx]);
                &&& res@.len() == cands.len()
                &&& forall|k: int|
                    0 <= k < res@.len() ==> (#[trigger] res@[k]).wf() && res@[k].board()
                        == guess_board(self.board(), idx, cands[k])
            },
    {
        let total_poss = self.TotalPossible();
        let mut guesses: Vec<Grid> = Vec::with_capacity(total_poss);
        let ghost b = self.board();
        let mut small_poss: usize = 99;
        let mut sm_x: usize = 0;
        let mut sm_y: usize = 0;
        let mut x: usize = 0;
        while x < 9
            invariant
                x <= 9,
                self.wf(),
                b == self.board(),
                guesses@.len() == 0,
                sm_x < 9,
                sm_y < 9,
                best_guess_prefix(b, (9 * x) as nat).1 == small_poss,
                best_guess_prefix(b, (9 * x) as nat).0 == if small_poss < 99 {
                    9 * sm_x + sm_y
                } else {
                    -1
                },
            decreases 9 - x,
        {
            let mut y: usize = 0;
            while y < 9
                invariant
                    x < 9,
                    y <= 9,
                    self.wf(),
                    b == self.board(),
                    guesses@.len() == 0,
                    sm_x < 9,
                    sm_y < 9,
                    best_guess_prefix(b, (9 * x + y) as nat).1 == small_poss,
                    best_guess_prefix(b, (9 * x + y) as nat).0 == if small_poss < 99 {
                        9 * sm_x + sm_y
                    } else {
                        -1
                    },
                decreases 9 - y,
            {
                let idx = 9 * x + y;
                if !self.m_cells[idx].IsKnown() {
                    let possibles = self.m_cells[idx].Possibles();
                    proof {
                        lemma_sorted_candidates(b[idx as int]);
                    }
                    if possibles.len() < small_poss {
                        small_poss = possibles.len();
                        sm_x = x;
                        sm_y = y;
                    }
                }
                proof {
                    lemma_best_guess_prefix_bounds(b, (9 * x + y) as nat);
                }
                y = y + 1;
            }
            x = x + 1;
        }
        proof {
            lemma_best_guess_prefix_bounds(b, 81);
        }
        if small_poss < 99 {
            let idx = 9 * sm_x + sm_y;
            let possibles = self.m_cells[idx].Possibles();
            let ghost cands = possibles@;
            let mut k: usize = 0;
            while k < possibles.len()
                invariant
                    k <= possibles.len(),
                    self.wf(),
                    b == self.board(),
                    sm_x < 9,
                    sm_y < 9,
                    idx == 9 * sm_x + sm_y,
                    cands == possibles@,
                    cands == sorted_candidates(b[idx as int]),
                    guesses@.len() == k,
                    forall|j: int|
                        0 <= j < k ==> (#[trigger] guesses@[j]).wf() && guesses@[j].board()
                            == guess_board(b, idx as int, cands[j]),
                decreases possibles.len() - k,
            {
                let v = possibles[k];
                proof {
                    lemma_sorted_candidates(b[idx as int]);
                    assert(cands.to_set().contains(v));
                    assert(b[idx as int].subset_of(digit_set()));
                }
                let mut guess = self.DuplicateGrid();
                guess.setKnown(sm_x, sm_y, v);
                guesses.push(guess);
                k = k + 1;
            }
        }
        guesses
    }

    /// Whether the grid shows exactly the given puzzle.
    #[allow(non_snake_case)]
    pub fn KnownEquals(&self, puzzle: [[u8; 9]; 9]) -> (res: bool)
        requires
            self.wf(),
        ensures
            res == (puzzle_view(puzzle) == board_puzzle(self.board())),
    {
        let this_puzz = self.Puzzle();
        let mut x: usize = 0;
        while x < 9
            invariant
                x <= 9,
                puzzle_view(this_puzz) == board_puzzle(self.board()),
                forall|a: int, c: int| 0 <= a < x && 0 <= c < 9 ==> #[trigger] puzzle[a][c] == this_puzz[a][c],
            decreases 9 - x,
        {
            let mut y: usize = 0;
            while y < 9
                invariant
                    x < 9,
                    y <= 9,
                    puzzle_view(this_puzz) == board_puzzle(self.board()),
                    forall|a: int, c: int|
                        0 <= a < 9 && 0 <= c < 9 && (a < x || (a == x && c < y)) ==> #[trigger] puzzle[a][c]
                            == this_puzz[a][c],
                decreases 9 - y,
            {
                if puzzle[x][y] != this_puzz[x][y] {
                    proof {
                        assert(puzzle_view(puzzle)[x as int][y as int] != puzzle_view(this_puzz)[x as int][y as int]);
                    }
                    return false;
                }
                y = y + 1;
            }
            x = x + 1;
        }
        proof {
            assert forall|a: int| 0 <= a < 9 implies puzzle_view(puzzle)[a] =~= puzzle_view(this_puzz)[a] by {}
            assert(puzzle_view(puzzle) =~= puzzle_view(this_puzz));
        }
        true
    }

    /// The grid as text: one line per row, each cell shown by its value when known and by
    /// `x` otherwise.
    pub fn to_string(&self) -> (res: String)
        ensures
            self.m_cells@.len() < 81 ==> res@ == uninitialised_text(),
            self.m_cells@.len() >= 81 ==> res@ == rows_text(self.board(), 9),
    {
        let mut text = String::new();
        if self.m_cells.len() < 81 {
            proof {
                reveal_strlit("Grid probably not initialised");
            }
            text.append("Grid probably not initialised");
            return text;
        }
        let mut x: usize = 0;
        while x < 9
            invariant
                x <= 9,
                self.m_cells@.len() >= 81,
                text@ == rows_text(self.board(), x as nat),
            decreases 9 - x,
        {
            let mut y: usize = 0;
            while y < 9
                invariant
                    x < 9,
                    y <= 9,
                    self.m_cells@.len() >= 81,
                    text@ == rows_text(self.board(), x as nat) + members_text(
                        self.board(),
                        unit_members(9 + x).take(y as int),
                    ),
                decreases 9 - y,
            {
                let c = &self.m_cells[9 * y + x];
                let s = c.to_string();
                text.append(s.as_str());
                proof {
                    let t = unit_members(9 + x).take(y + 1);
                    assert(t.drop_last() == unit_members(9 + x).take(y as int));
                    assert(t.last() == 9 * y + x);
                    assert(text@ == rows_text(self.board(), x as nat) + members_text(
                        self.board(),
                        unit_members(9 + x).take(y as int),
                    ) + s@);
                }
                y = y + 1;
            }
            proof {
                reveal_strlit("\n");
                assert(unit_members(9 + x).take(9) == unit_members(9 + x));
            }
            text.append("\n");
            proof {
                assert(rows_text(self.board(), (x + 1) as nat) == rows_text(self.board(), x as nat)
                    + members_text(self.board(), unit_members(9 + x)) + seq!['\n']);
            }
            x = x + 1;
        }
        text
    }
}

/// The best guess so far is either none, with 99, or an unknown cell with fewer than 99
/// candidates.
pub proof fn lemma_best_guess_prefix_bounds(b: Seq<Set<u8>>, n: nat)
    requires
        n <= b.len(),
    ensures
        best_guess_prefix(b, n).0 < 0 <==> best_guess_prefix(b, n).1 == 99,
        best_guess_prefix(b, n).0 < n,
        best_guess_prefix(b, n).1 <= 99,
        best_guess_prefix(b, n).0 >= 0 ==> {
            let idx = best_guess_prefix(b, n).0;
            b[idx].len() != 1 && b[idx].len() == best_guess_prefix(b, n).1
        },
        (exists|i: int| 0 <= i < n && (#[trigger] b[i]).len() != 1 && b[i].len() < 99)
            ==> best_guess_prefix(b, n).0 >= 0,
    decreases n,
{
    if n > 0 {
        lemma_best_guess_prefix_bounds(b, (n - 1) as nat);
        if exists|i: int| 0 <= i < n && (#[trigger] b[i]).len() != 1 && b[i].len() < 99 {
            let i = choose|i: int| 0 <= i < n && (#[trigger] b[i]).len() != 1 && b[i].len() < 99;
            if i < n - 1 {
                assert(exists|i: int| 0 <= i < n - 1 && (#[trigger] b[i]).len() != 1 && b[i].len() < 99);
            }
        }
    }
}

/// After a failed reduction the rest of the pass is skipped.
pub proof fn lemma_pass_prefix_stops(b: Seq<Set<u8>>, k: nat, n: nat)
    requires
        k <= n,
        pass_prefix(b, k).1 is Err,
    ensures
        pass_prefix(b, n) == pass_prefix(b, k),
    decreases n,
{
    if n > k {
        lemma_pass_prefix_stops(b, k, (n - 1) as nat);
    }
}

} // verus!
