//! The grid seen as a board: for each of the 81 cells, the set of its candidates.
//! Cell `(x, y)` (column `x`, row `y`) stands at index `9 * x + y`.
//! The 27 units are the nine squares, then the nine rows, then the nine columns.

use crate::cell::{
    cell, cell_text, digit_set, is_digit, known_value, take_known, take_result, valid_known,
    SolveError,
};
use vstd::prelude::*;

verus! {

/// The index of the cell at column `x` and row `y`.
pub open spec fn cell_index(x: int, y: int) -> int {
    9 * x + y
}

/// The `j`-th cell of unit `u`. Square `k` covers columns `3 * (k % 3)` to `3 * (k % 3) + 2`
/// and rows `3 * (k / 3)` to `3 * (k / 3) + 2`, column by column; row `r` runs over the
/// columns; column `c` runs over the rows.
pub open spec fn unit_member(u: int, j: int) -> int {
    if u < 9 {
        cell_index(3 * (u % 3) + j / 3, 3 * (u / 3) + j % 3)
    } else if u < 18 {
        cell_index(j, u - 9)
    } else {
        cell_index(u - 18, j)
    }
}

/// The nine cells of unit `u`, in order.
pub open spec fn unit_members(u: int) -> Seq<usize> {
    Seq::new(9, |j: int| unit_member(u, j) as usize)
}

/// The abstract view of a list of cells.
pub open spec fn board_of(cells: Seq<cell>) -> Seq<Set<u8>> {
    Seq::new(cells.len(), |i: int| cells[i].candidates())
}

/// Two lists of cells have the same length and every cell keeps its coordinates.
pub open spec fn same_places(a: Seq<cell>, b: Seq<cell>) -> bool {
    &&& a.len() == b.len()
    &&& forall|i: int| 0 <= i < a.len() ==> #[trigger] a[i].m_x == b[i].m_x && a[i].m_y == b[i].m_y
}

/// Every member is an index of the board.
pub open spec fn members_in(members: Seq<usize>, n: int) -> bool {
    forall|j: int| 0 <= j < members.len() ==> #[trigger] members[j] < n
}

/// The values of the known members, in the members' order.
pub open spec fn known_values(b: Seq<Set<u8>>, members: Seq<usize>) -> Seq<u8>
    decreases members.len(),
{
    if members.len() == 0 {
        seq![]
    } else {
        let rest = known_values(b, members.drop_last());
        let s = b[members.last() as int];
        if s.len() == 1 {
            rest.push(known_value(s))
        } else {
            rest
        }
    }
}

/// The known values of the members are digits.
pub open spec fn known_digits(b: Seq<Set<u8>>, members: Seq<usize>) -> bool {
    forall|e: int|
        0 <= e < known_values(b, members).len() ==> is_digit(#[trigger] known_values(b, members)[e] as int)
}

/// Every member is known.
pub open spec fn members_solved(b: Seq<Set<u8>>, members: Seq<usize>) -> bool {
    forall|j: int| 0 <= j < members.len() ==> (#[trigger] b[members[j] as int]).len() == 1
}

/// Takes `known` from each member in turn and stops at the first member that becomes
/// invalid. Gives the board afterwards and what was reported: the first failure, or whether
/// any member lost a candidate.
pub open spec fn slice_take(b: Seq<Set<u8>>, members: Seq<usize>, known: Seq<u8>) -> (Seq<Set<u8>>, Result<bool, SolveError>)
    decreases members.len(),
{
    if members.len() == 0 {
        (b, Ok(false))
    } else {
        let (b1, r1) = slice_take(b, members.drop_last(), known);
        match r1 {
            Err(e) => (b1, Err(e)),
            Ok(changed) => {
                let m = members.last() as int;
                let s = b1[m];
                (
                    b1.update(m, take_known(s, known)),
                    match take_result(s, known) {
                        Err(e) => Err(e),
                        Ok(t) => Ok(changed || t),
                    },
                )
            },
        }
    }
}

/// Reducing a unit: the known values of its members are taken from every member.
pub open spec fn unit_reduce(b: Seq<Set<u8>>, members: Seq<usize>) -> (Seq<Set<u8>>, Result<bool, SolveError>) {
    slice_take(b, members, known_values(b, members))
}

/// The first `n` unit reductions of a pass, which goes twice over the 27 units and stops at
/// the first failure.
pub open spec fn pass_prefix(b: Seq<Set<u8>>, n: nat) -> (Seq<Set<u8>>, Result<bool, SolveError>)
    decreases n,
{
    if n == 0 {
        (b, Ok(false))
    } else {
        let (b1, r1) = pass_prefix(b, (n - 1) as nat);
        match r1 {
            Err(e) => (b1, Err(e)),
            Ok(changed) => {
                let (b2, r2) = unit_reduce(b1, unit_members(((n - 1) % 27) as int));
                (
                    b2,
                    match r2 {
                        Err(e) => Err(e),
                        Ok(t) => Ok(changed || t),
                    },
                )
            },
        }
    }
}

/// A whole reduction pass: two rounds over the 27 units.
pub open spec fn reduce_pass(b: Seq<Set<u8>>) -> (Seq<Set<u8>>, Result<bool, SolveError>) {
    pass_prefix(b, 54)
}

/// Every cell has between one and nine candidates.
pub open spec fn cells_valid(b: Seq<Set<u8>>) -> bool {
    forall|i: int| 0 <= i < b.len() ==> 1 <= (#[trigger] b[i]).len() <= 9
}

/// The known values of unit `u` are digits, none twice.
pub open spec fn unit_valid(b: Seq<Set<u8>>, u: int) -> bool {
    valid_known(known_values(b, unit_members(u)))
}

/// The board is valid: every cell is valid and so is every unit.
pub open spec fn board_valid(b: Seq<Set<u8>>) -> bool {
    &&& cells_valid(b)
    &&& forall|u: int| 0 <= u < 27 ==> #[trigger] unit_valid(b, u)
}

/// Every cell is known.
pub open spec fn board_solved(b: Seq<Set<u8>>) -> bool {
    forall|i: int| 0 <= i < b.len() ==> (#[trigger] b[i]).len() == 1
}

/// The entry of the puzzle at row `y`, column `x`: the cell's value when known, else 0.
pub open spec fn puzzle_entry(b: Seq<Set<u8>>, x: int, y: int) -> u8 {
    let s = b[cell_index(x, y)];
    if s.len() == 1 {
        known_value(s)
    } else {
        0
    }
}

/// The board that a puzzle gives: a digit at row `y`, column `x` makes that cell known,
/// anything else leaves it free.
pub open spec fn filled_board(p: Seq<Seq<u8>>) -> Seq<Set<u8>> {
    Seq::new(
        81,
        |i: int|
            if is_digit(p[i % 9][i / 9] as int) {
                set![p[i % 9][i / 9]]
            } else {
                digit_set()
            },
    )
}

/// A puzzle read as rows of entries.
pub open spec fn puzzle_view(p: [[u8; 9]; 9]) -> Seq<Seq<u8>> {
    Seq::new(9, |y: int| p[y]@)
}

/// The same puzzle with every entry that is not a digit turned into 0.
pub open spec fn normalized(p: Seq<Seq<u8>>) -> Seq<Seq<u8>> {
    Seq::new(9, |y: int| Seq::new(9, |x: int| if is_digit(p[y][x] as int) { p[y][x] } else { 0 }))
}

/// The puzzle that a board shows, row by row.
pub open spec fn board_puzzle(b: Seq<Set<u8>>) -> Seq<Seq<u8>> {
    Seq::new(9, |y: int| Seq::new(9, |x: int| puzzle_entry(b, x, y)))
}

/// The board in which cell `idx` of the puzzle shown by `b` is fixed to `v`.
pub open spec fn guess_board(b: Seq<Set<u8>>, idx: int, v: u8) -> Seq<Set<u8>> {
    filled_board(board_puzzle(b)).update(idx, set![v])
}

/// Among the first `n` cells, the first unknown one with the fewest candidates (fewer than
/// 99), and that number; `-1` and 99 when there is none.
pub open spec fn best_guess_prefix(b: Seq<Set<u8>>, n: nat) -> (int, nat)
    decreases n,
{
    if n == 0 {
        (-1, 99)
    } else {
        let (idx, cnt) = best_guess_prefix(b, (n - 1) as nat);
        let s = b[n - 1];
        if s.len() != 1 && s.len() < cnt {
            (n - 1, s.len())
        } else {
            (idx, cnt)
        }
    }
}

/// The cell the search guesses on.
pub open spec fn best_guess(b: Seq<Set<u8>>) -> (int, nat) {
    best_guess_prefix(b, 81)
}

/// The candidates of the first `n` cells that are not known, all counted.
pub open spec fn total_possible_prefix(b: Seq<Set<u8>>, n: nat) -> nat
    decreases n,
{
    if n == 0 {
        0
    } else {
        total_possible_prefix(b, (n - 1) as nat) + if b[n - 1].len() != 1 {
            b[n - 1].len()
        } else {
            0
        }
    }
}

/// The candidates of all cells that are not known, counted.
pub open spec fn total_possible(b: Seq<Set<u8>>) -> nat {
    total_possible_prefix(b, b.len())
}

/// The text of the given cells, one after the other.
pub open spec fn members_text(b: Seq<Set<u8>>, members: Seq<usize>) -> Seq<char>
    decreases members.len(),
{
    if members.len() == 0 {
        seq![]
    } else {
        members_text(b, members.drop_last()) + cell_text(b[members.last() as int])
    }
}

/// The first `n` rows of the grid as text, each row followed by a line break.
pub open spec fn rows_text(b: Seq<Set<u8>>, n: nat) -> Seq<char>
    decreases n,
{
    if n == 0 {
        seq![]
    } else {
        rows_text(b, (n - 1) as nat) + members_text(b, unit_members(9 + n - 1)) + seq!['\n']
    }
}

/// A solution: 81 digits, no digit twice in any unit.
pub open spec fn is_solution(s: Seq<u8>) -> bool {
    &&& s.len() == 81
    &&& forall|i: int| 0 <= i < 81 ==> is_digit(#[trigger] s[i] as int)
    &&& forall|u: int, j: int, k: int|
        0 <= u < 27 && 0 <= j < 9 && 0 <= k < 9 && j != k ==> #[trigger] s[unit_member(u, j)]
            != #[trigger] s[unit_member(u, k)]
}

/// A solution agrees with a board when each of its values is a candidate of its cell.
pub open spec fn consistent(s: Seq<u8>, b: Seq<Set<u8>>) -> bool {
    &&& b.len() == 81
    &&& forall|i: int| 0 <= i < 81 ==> (#[trigger] b[i]).contains(s[i])
}

/// Every candidate of every cell is a digit.
pub open spec fn digits_only(b: Seq<Set<u8>>) -> bool {
    forall|i: int| 0 <= i < b.len() ==> (#[trigger] b[i]).subset_of(digit_set())
}

/// Some solution agrees with the board.
pub open spec fn solvable(b: Seq<Set<u8>>) -> bool {
    exists|s: Seq<u8>| is_solution(s) && consistent(s, b)
}

/// `b2` keeps every cell that is known in `b1`.
pub open spec fn keeps_known(b1: Seq<Set<u8>>, b2: Seq<Set<u8>>) -> bool {
    &&& b1.len() == b2.len()
    &&& forall|i: int| 0 <= i < b1.len() && (#[trigger] b1[i]).len() == 1 ==> b2[i] == b1[i]
}

/// The values of a solved board.
pub open spec fn board_values(b: Seq<Set<u8>>) -> Seq<u8> {
    Seq::new(b.len(), |i: int| known_value(b[i]))
}

} // verus!
