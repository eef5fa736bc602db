//! Properties of the library as a whole, relating its operations to each other.

use crate::board::{
    best_guess, best_guess_prefix, board_puzzle, board_solved, consistent, digits_only, filled_board, guess_board,
    is_solution, keeps_known, normalized, reduce_pass,
};
use crate::cell::{
    digit_set, is_digit, known_value, lemma_digit_set_len, lemma_singleton, lemma_sorted_candidates,
    sorted_candidates, take_known, take_result, SolveError,
};
use crate::lemmas::{
    lemma_contains_len, lemma_guess_board_consistent, lemma_pass_prefix_consistent,
    lemma_pass_prefix_shrinks, lemma_subset_len, shrunk, some_cell_shrunk,
};
use vstd::prelude::*;

verus! {

/// A grid filled from a puzzle shows that puzzle back, with every entry that is not a digit
/// read as 0.
pub proof fn law_filled_board_shows_puzzle(p: Seq<Seq<u8>>)
    requires
        p.len() == 9,
        forall|y: int| 0 <= y < 9 ==> (#[trigger] p[y]).len() == 9,
    ensures
        board_puzzle(filled_board(p)) == normalized(p),
{
    let b = filled_board(p);
    lemma_digit_set_len();
    assert forall|y: int| 0 <= y < 9 implies #[trigger] board_puzzle(b)[y] =~= normalized(p)[y] by {
        assert forall|x: int| 0 <= x < 9 implies board_puzzle(b)[y][x] == normalized(p)[y][x] by {
            let i = 9 * x + y;
            assert(i % 9 == y && i / 9 == x);
            if is_digit(p[y][x] as int) {
                assert(set![p[y][x]].contains(p[y][x]));
                assert(set![p[y][x]].len() == 1) by {
                    assert(set![p[y][x]] == Set::<u8>::empty().insert(p[y][x]));
                }
                lemma_singleton(b[i], p[y][x]);
            }
        }
    }
    assert(board_puzzle(b) =~= normalized(p));
}

/// Copying a grid through the puzzle it shows keeps that puzzle, as long as every known
/// cell holds a digit.
pub proof fn law_copy_keeps_puzzle(b: Seq<Set<u8>>)
    requires
        b.len() == 81,
        forall|i: int| 0 <= i < 81 && (#[trigger] b[i]).len() == 1 ==> is_digit(known_value(b[i]) as int),
    ensures
        board_puzzle(filled_board(board_puzzle(b))) == board_puzzle(b),
{
    let p = board_puzzle(b);
    law_filled_board_shows_puzzle(p);
    assert forall|y: int| 0 <= y < 9 implies #[trigger] normalized(p)[y] =~= p[y] by {
        assert forall|x: int| 0 <= x < 9 implies normalized(p)[y][x] == p[y][x] by {
            assert(9 * x + y < 81);
        }
    }
    assert(normalized(p) =~= p);
}

/// Taking the same known values a second time changes nothing and reports no change.
pub proof fn law_take_known_twice(s: Set<u8>, known: Seq<u8>)
    ensures
        take_known(take_known(s, known), known) == take_known(s, known),
        take_result(s, known) is Ok ==> take_result(take_known(s, known), known) == Ok::<
            bool,
            SolveError,
        >(false),
{
    let t = take_known(s, known);
    if s.len() != 1 && t.len() != 1 {
        assert(t.difference(known.to_set()) =~= t);
    }
}

/// A reduction pass only removes candidates, leaves known cells as they are, fails only
/// with an invalid cell, and reports a change only when some cell lost a candidate.
pub proof fn law_reduce_pass_shrinks(b: Seq<Set<u8>>)
    requires
        b.len() == 81,
    ensures
        shrunk(b, reduce_pass(b).0),
        keeps_known(b, reduce_pass(b).0),
        reduce_pass(b).1 matches Ok(changed) ==> (changed ==> some_cell_shrunk(b, reduce_pass(b).0)),
        reduce_pass(b).1 matches Err(e) ==> e == SolveError::InvalidCell,
{
    lemma_pass_prefix_shrinks(b, 54);
}

/// A reduction pass never removes a candidate that a solution agreeing with the grid uses,
/// and so never fails on such a grid.
pub proof fn law_reduce_pass_keeps_solutions(b: Seq<Set<u8>>, sol: Seq<u8>)
    requires
        is_solution(sol),
        consistent(sol, b),
        digits_only(b),
    ensures
        reduce_pass(b).1 is Ok,
        consistent(sol, reduce_pass(b).0),
{
    lemma_pass_prefix_consistent(b, 54, sol);
}

/// On a grid that is not solved, every solution agreeing with it agrees with one of the
/// guesses: the guesses together lose no solution.
pub proof fn law_guesses_cover_solutions(b: Seq<Set<u8>>, sol: Seq<u8>)
    requires
        b.len() == 81,
        is_solution(sol),
        consistent(sol, b),
        digits_only(b),
        !board_solved(b),
    ensures
        best_guess(b).0 >= 0,
        exists|k: int|
            0 <= k < sorted_candidates(b[best_guess(b).0]).len() && consistent(
                sol,
                guess_board(b, best_guess(b).0, #[trigger] sorted_candidates(b[best_guess(b).0])[k]),
            ),
{
    let c = choose|c: int| 0 <= c < 81 && (#[trigger] b[c]).len() != 1;
    lemma_contains_len(b[c], sol[c]);
    lemma_digit_set_len();
    lemma_subset_len(b[c], digit_set());
    crate::grid::lemma_best_guess_prefix_bounds(b, 81);
    let idx = best_guess(b).0;
    let cands = sorted_candidates(b[idx]);
    lemma_sorted_candidates(b[idx]);
    assert(cands.to_set().contains(sol[idx]));
    let k = choose|k: int| 0 <= k < cands.len() && cands[k] == sol[idx];
    lemma_guess_board_consistent(b, idx, sol);
    assert(consistent(sol, guess_board(b, idx, cands[k])));
}

/// Taking known values from a list of cells that succeeds reports a change exactly when
/// some cell's candidates changed: a change in any cell, not only the last, is reported.
pub proof fn law_slice_take_reports_change(b: Seq<Set<u8>>, members: Seq<usize>, known: Seq<u8>)
    requires
        crate::board::members_in(members, b.len() as int),
    ensures
        crate::board::slice_take(b, members, known).1 matches Ok(changed) ==> (changed <==> crate::board::slice_take(
            b,
            members,
            known,
        ).0 != b),
{
    crate::lemmas::lemma_slice_take_shrinks(b, members, known);
    let b2 = crate::board::slice_take(b, members, known).0;
    if crate::board::slice_take(b, members, known).1 == Ok::<bool, SolveError>(true) {
        let i = choose|i: int| 0 <= i < b.len() && (#[trigger] b2[i]).len() < b[i].len();
        assert(b2[i] != b[i]);
    }
}

/// Reducing a unit, when it succeeds, reports a change exactly when some cell's candidates
/// changed.
pub proof fn law_unit_reduce_reports_change(b: Seq<Set<u8>>, u: int)
    requires
        b.len() == 81,
        0 <= u < 27,
    ensures
        crate::board::unit_reduce(b, crate::board::unit_members(u)).1 matches Ok(changed) ==> (changed
            <==> crate::board::unit_reduce(b, crate::board::unit_members(u)).0 != b),
{
    crate::grid::lemma_unit_members_in(u);
    let ms = crate::board::unit_members(u);
    law_slice_take_reports_change(b, ms, crate::board::known_values(b, ms));
}

/// A reduction pass, when it succeeds, reports a change exactly when some cell's candidates
/// changed.
pub proof fn law_reduce_pass_reports_change(b: Seq<Set<u8>>)
    requires
        b.len() == 81,
    ensures
        reduce_pass(b).1 matches Ok(changed) ==> (changed <==> reduce_pass(b).0 != b),
{
    lemma_pass_prefix_shrinks(b, 54);
    let b2 = reduce_pass(b).0;
    if reduce_pass(b).1 == Ok::<bool, SolveError>(true) {
        let i = choose|i: int| 0 <= i < b.len() && (#[trigger] b2[i]).len() < b[i].len();
        assert(b2[i] != b[i]);
    }
}

/// Among the first `n` cells, the chosen one is unknown with fewer than 99 candidates, no
/// unknown cell has fewer, and every earlier unknown cell has more; with no choice, no unknown
/// cell has fewer than 99.
pub proof fn lemma_best_guess_prefix_fewest(b: Seq<Set<u8>>, n: nat)
    requires
        n <= b.len(),
    ensures
        best_guess_prefix(b, n).0 >= 0 ==> {
            let idx = best_guess_prefix(b, n).0;
            &&& 0 <= idx < n
            &&& b[idx].len() != 1
            &&& b[idx].len() < 99
            &&& forall|i: int| 0 <= i < n && (#[trigger] b[i]).len() != 1 ==> b[i].len() >= b[idx].len()
            &&& forall|i: int| 0 <= i < idx && (#[trigger] b[i]).len() != 1 ==> b[i].len() > b[idx].len()
        },
        best_guess_prefix(b, n).0 < 0 ==> forall|i: int|
            0 <= i < n && (#[trigger] b[i]).len() != 1 ==> b[i].len() >= 99,
    decreases n,
{
    crate::grid::lemma_best_guess_prefix_bounds(b, n);
    if n > 0 {
        lemma_best_guess_prefix_fewest(b, (n - 1) as nat);
        crate::grid::lemma_best_guess_prefix_bounds(b, (n - 1) as nat);
    }
}

/// The search guesses on the first of the unknown cells with the fewest candidates (fewer
/// than 99), and each guess fixes that one cell to its value; with no such cell it guesses
/// on none.
pub proof fn law_best_guess_is_first_fewest(b: Seq<Set<u8>>)
    requires
        b.len() == 81,
    ensures
        best_guess(b).0 >= 0 ==> {
            let idx = best_guess(b).0;
            &&& 0 <= idx < 81
            &&& b[idx].len() != 1
            &&& b[idx].len() < 99
            &&& forall|i: int| 0 <= i < 81 && (#[trigger] b[i]).len() != 1 ==> b[i].len() >= b[idx].len()
            &&& forall|i: int| 0 <= i < idx && (#[trigger] b[i]).len() != 1 ==> b[i].len() > b[idx].len()
            &&& forall|v: u8| #[trigger] guess_board(b, idx, v)[idx] == set![v]
        },
        best_guess(b).0 < 0 ==> forall|i: int| 0 <= i < 81 && (#[trigger] b[i]).len() != 1 ==> b[i].len() >= 99,
{
    lemma_best_guess_prefix_fewest(b, 81);
}

/// The number of candidates of the cells that are not known, plus one for each known cell,
/// is the number of candidates of all cells.
pub proof fn law_total_possible_counts_unknown_candidates(b: Seq<Set<u8>>, n: nat)
    requires
        n <= b.len(),
    ensures
        crate::board::total_possible_prefix(b, n) + (n - crate::lemmas::unknown_count_prefix(b, n))
            == crate::lemmas::candidate_count_prefix(b, n),
        crate::lemmas::unknown_count_prefix(b, n) <= n,
    decreases n,
{
    if n > 0 {
        law_total_possible_counts_unknown_candidates(b, (n - 1) as nat);
    }
}

/// A valid board has digits in its known cells, and no square, row or column with two known
/// cells holding the same value, whether the board is solved or not; and a board whose cells
/// each have one to nine candidates with these two properties is valid.
pub proof fn law_valid_board_means_no_repeats(b: Seq<Set<u8>>)
    requires
        b.len() == 81,
    ensures
        crate::board::board_valid(b) <==> {
            &&& crate::board::cells_valid(b)
            &&& forall|i: int| 0 <= i < 81 && (#[trigger] b[i]).len() == 1 ==> is_digit(known_value(b[i]) as int)
            &&& forall|u: int, j: int, k: int|
                0 <= u < 27 && 0 <= j < 9 && 0 <= k < 9 && j != k
                    && (#[trigger] b[crate::board::unit_member(u, j)]).len() == 1
                    && (#[trigger] b[crate::board::unit_member(u, k)]).len() == 1
                    ==> known_value(b[crate::board::unit_member(u, j)]) != known_value(b[crate::board::unit_member(u, k)])
        },
{
    if crate::board::board_valid(b) {
        assert forall|i: int| 0 <= i < 81 && (#[trigger] b[i]).len() == 1 implies is_digit(known_value(b[i]) as int) by {
            crate::lemmas::lemma_valid_known_digit(b, i);
        }
        assert forall|u: int, j: int, k: int|
            0 <= u < 27 && 0 <= j < 9 && 0 <= k < 9 && j != k
                && (#[trigger] b[crate::board::unit_member(u, j)]).len() == 1
                && (#[trigger] b[crate::board::unit_member(u, k)]).len() == 1
            implies known_value(b[crate::board::unit_member(u, j)]) != known_value(b[crate::board::unit_member(u, k)]) by {
            let ms = crate::board::unit_members(u);
            crate::grid::lemma_unit_members_in(u);
            crate::lemmas::lemma_known_positions(b, ms);
            crate::lemmas::lemma_known_positions_cover(b, ms);
            let kp = crate::lemmas::known_positions(b, ms);
            let kv = crate::board::known_values(b, ms);
            assert(b[ms[j] as int].len() == 1);
            assert(b[ms[k] as int].len() == 1);
            let ej = choose|e: int| 0 <= e < kp.len() && #[trigger] kp[e] == j;
            let ek = choose|e: int| 0 <= e < kp.len() && #[trigger] kp[e] == k;
            assert(crate::board::unit_valid(b, u));
            assert(kv[ej] == known_value(b[ms[j] as int]));
            assert(kv[ek] == known_value(b[ms[k] as int]));
            if ej < ek {
                assert(kv[ej] != kv[ek]);
            } else {
                assert(kv[ek] != kv[ej]);
            }
        }
    } else if crate::board::cells_valid(b)
        && (forall|i: int| 0 <= i < 81 && (#[trigger] b[i]).len() == 1 ==> is_digit(known_value(b[i]) as int))
        && (forall|u: int, j: int, k: int|
                0 <= u < 27 && 0 <= j < 9 && 0 <= k < 9 && j != k
                    && (#[trigger] b[crate::board::unit_member(u, j)]).len() == 1
                    && (#[trigger] b[crate::board::unit_member(u, k)]).len() == 1
                    ==> known_value(b[crate::board::unit_member(u, j)]) != known_value(b[crate::board::unit_member(u, k)])) {
        assert forall|u: int| 0 <= u < 27 implies #[trigger] crate::board::unit_valid(b, u) by {
            let ms = crate::board::unit_members(u);
            crate::grid::lemma_unit_members_in(u);
            crate::lemmas::lemma_known_positions(b, ms);
            crate::lemmas::lemma_known_positions_cover(b, ms);
            let kp = crate::lemmas::known_positions(b, ms);
            let kv = crate::board::known_values(b, ms);
            assert forall|e: int| 0 <= e < kv.len() implies is_digit(#[trigger] kv[e] as int) by {
                let j = kp[e];
                assert(b[ms[j] as int].len() == 1);
            }
            assert forall|e1: int, e2: int| 0 <= e1 < e2 < kv.len() implies kv[e1] != kv[e2] by {
                let j = kp[e1];
                let k = kp[e2];
                assert(j < k);
                assert(b[crate::board::unit_member(u, j)].len() == 1);
                assert(b[crate::board::unit_member(u, k)].len() == 1);
            }
        }
    }
}

/// The text of some cells whose text is one character each: one character per cell.
pub proof fn lemma_members_text_chars(b: Seq<Set<u8>>, members: Seq<usize>)
    requires
        crate::board::members_in(members, b.len() as int),
        forall|j: int|
            0 <= j < members.len() ==> (#[trigger] crate::cell::cell_text(b[members[j] as int])).len() == 1,
    ensures
        crate::board::members_text(b, members).len() == members.len(),
        forall|j: int|
            0 <= j < members.len() ==> #[trigger] crate::board::members_text(b, members)[j]
                == crate::cell::cell_text(b[members[j] as int])[0],
    decreases members.len(),
{
    if members.len() > 0 {
        let rest = members.drop_last();
        assert(crate::board::members_in(rest, b.len() as int));
        assert forall|j: int| 0 <= j < rest.len() implies (#[trigger] crate::cell::cell_text(b[rest[j] as int])).len() == 1 by {
            assert(rest[j] == members[j]);
        }
        lemma_members_text_chars(b, rest);
        let t = crate::board::members_text(b, members);
        assert forall|j: int| 0 <= j < members.len() implies #[trigger] t[j] == crate::cell::cell_text(
            b[members[j] as int],
        )[0] by {
            if j < rest.len() {
                assert(rest[j] == members[j]);
            }
        }
    }
}

/// The character a cell shows when its value fits one digit.
pub open spec fn cell_char(s: Set<u8>) -> char {
    if s.len() == 1 {
        crate::cell::digit_char(known_value(s) as int)
    } else {
        'x'
    }
}

/// The first `n` lines of the grid text when every known cell holds a value below 10: line
/// `k` is ten characters, the cells `(0, k)` to `(8, k)` by value or `x`, then a line break.
pub proof fn lemma_rows_text_lines(b: Seq<Set<u8>>, n: nat)
    requires
        b.len() == 81,
        n <= 9,
        forall|i: int| 0 <= i < 81 && (#[trigger] b[i]).len() == 1 ==> known_value(b[i]) < 10,
    ensures
        crate::board::rows_text(b, n).len() == 10 * n,
        forall|k: int, c: int|
            0 <= k < n && 0 <= c < 9 ==> #[trigger] crate::board::rows_text(b, n)[10 * k + c] == cell_char(
                b[9 * c + k],
            ),
        forall|k: int| 0 <= k < n ==> #[trigger] crate::board::rows_text(b, n)[10 * k + 9] == '\n',
    decreases n,
{
    if n > 0 {
        let k0 = n - 1;
        lemma_rows_text_lines(b, (n - 1) as nat);
        let ms = crate::board::unit_members(9 + k0);
        crate::grid::lemma_unit_members_in(9 + k0);
        assert forall|j: int| 0 <= j < ms.len() implies (#[trigger] crate::cell::cell_text(b[ms[j] as int])).len() == 1 by {
            assert(ms[j] == 9 * j + k0);
        }
        lemma_members_text_chars(b, ms);
        let prev = crate::board::rows_text(b, (n - 1) as nat);
        let line = crate::board::members_text(b, ms);
        let all = crate::board::rows_text(b, n);
        assert(all == prev + line + seq!['\n']);
        assert forall|k: int, c: int| 0 <= k < n && 0 <= c < 9 implies #[trigger] all[10 * k + c] == cell_char(
            b[9 * c + k],
        ) by {
            if k < n - 1 {
                assert(all[10 * k + c] == prev[10 * k + c]);
            } else {
                assert(all[10 * k + c] == line[c]);
                assert(ms[c] == 9 * c + k);
            }
        }
        assert forall|k: int| 0 <= k < n implies #[trigger] all[10 * k + 9] == '\n' by {
            if k < n - 1 {
                assert(all[10 * k + 9] == prev[10 * k + 9]);
            }
        }
    }
}

/// When every known cell holds a value below 10 (as in a grid of digits), the grid text is
/// nine lines in row order: line `k` shows the cells `(0, k)`, `(1, k)`, ..., `(8, k)` by value
/// or `x`, followed by a line break.
pub proof fn law_grid_text_shows_rows_in_order(b: Seq<Set<u8>>)
    requires
        b.len() == 81,
        forall|i: int| 0 <= i < 81 && (#[trigger] b[i]).len() == 1 ==> known_value(b[i]) < 10,
    ensures
        crate::board::rows_text(b, 9).len() == 90,
        forall|k: int, c: int|
            0 <= k < 9 && 0 <= c < 9 ==> #[trigger] crate::board::rows_text(b, 9)[10 * k + c] == cell_char(
                b[9 * c + k],
            ),
        forall|k: int| 0 <= k < 9 ==> #[trigger] crate::board::rows_text(b, 9)[10 * k + 9] == '\n',
{
    lemma_rows_text_lines(b, 9);
}

} // verus!
