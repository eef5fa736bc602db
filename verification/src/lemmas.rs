//! Facts about reductions, validity, guesses and counts that the search relies on.

use crate::board::{
    board_puzzle, board_solved, board_valid, board_values, cell_index, cells_valid, consistent,
    digits_only, guess_board, is_solution, keeps_known, known_digits, known_values, members_in,
    members_solved, pass_prefix, puzzle_entry, slice_take, unit_member, unit_members, unit_reduce,
    unit_valid,
};
use crate::cell::{
    digit_set, is_digit, known_value, lemma_digit_set_len, lemma_singleton, lemma_u8_set_finite,
    take_known, take_result, valid_known, SolveError,
};
use vstd::prelude::*;

verus! {

/// A set that holds an element has at least one.
pub proof fn lemma_contains_len(s: Set<u8>, a: u8)
    requires
        s.contains(a),
    ensures
        s.len() >= 1,
{
    lemma_u8_set_finite(s);
    vstd::set::axiom_set_remove_len(s, a);
}

/// A subset has no more elements, and a proper subset has fewer.
pub proof fn lemma_subset_len(s1: Set<u8>, s2: Set<u8>)
    requires
        s1.subset_of(s2),
    ensures
        s1.len() <= s2.len(),
        s1 != s2 ==> s1.len() < s2.len(),
{
    lemma_u8_set_finite(s1);
    lemma_u8_set_finite(s2);
    vstd::set_lib::lemma_len_subset(s1, s2);
    if s1.len() == s2.len() {
        vstd::set_lib::lemma_subset_equality(s1, s2);
    }
}

/// Every cell of `b2` is a subset of the same cell of `b1`.
pub open spec fn shrunk(b1: Seq<Set<u8>>, b2: Seq<Set<u8>>) -> bool {
    &&& b1.len() == b2.len()
    &&& forall|i: int| 0 <= i < b1.len() ==> (#[trigger] b2[i]).subset_of(b1[i])
}

/// Some cell of `b2` has fewer candidates than in `b1`.
pub open spec fn some_cell_shrunk(b1: Seq<Set<u8>>, b2: Seq<Set<u8>>) -> bool {
    exists|i: int| 0 <= i < b1.len() && (#[trigger] b2[i]).len() < b1[i].len()
}

/// Taking known values from some cells only removes candidates, keeps the known cells,
/// fails only with an invalid cell, and reports a change only when some cell lost a candidate.
pub proof fn lemma_slice_take_shrinks(b: Seq<Set<u8>>, members: Seq<usize>, known: Seq<u8>)
    requires
        members_in(members, b.len() as int),
    ensures
        shrunk(b, slice_take(b, members, known).0),
        keeps_known(b, slice_take(b, members, known).0),
        slice_take(b, members, known).1 matches Ok(changed) ==> (changed ==> some_cell_shrunk(
            b,
            slice_take(b, members, known).0,
        )),
        slice_take(b, members, known).1 matches Err(e) ==> e == SolveError::InvalidCell,
        slice_take(b, members, known).1 == Ok::<bool, SolveError>(false) ==> slice_take(
            b,
            members,
            known,
        ).0 == b,
    decreases members.len(),
{
    if members.len() > 0 {
        let rest = members.drop_last();
        assert(members_in(rest, b.len() as int));
        lemma_slice_take_shrinks(b, rest, known);
        let (b1, r1) = slice_take(b, rest, known);
        if r1 is Ok {
            let m = members.last() as int;
            let s = b1[m];
            let t = take_known(s, known);
            let b2 = b1.update(m, t);
            assert(t.subset_of(s));
            lemma_subset_len(t, s);
            assert(shrunk(b, b2)) by {
                assert forall|i: int| 0 <= i < b.len() implies (#[trigger] b2[i]).subset_of(b[i]) by {
                    assert(b1[i].subset_of(b[i]));
                }
            }
            assert(keeps_known(b, b2));
            if slice_take(b, members, known).1 == Ok::<bool, SolveError>(false) {
                assert(r1 == Ok::<bool, SolveError>(false));
                assert(take_result(s, known) == Ok::<bool, SolveError>(false));
                crate::cell::lemma_take_known_shrinks(s, known);
                assert(t == s);
                assert(b2 =~= b1);
            }
            if slice_take(b, members, known).1 == Ok::<bool, SolveError>(true) {
                if r1 == Ok::<bool, SolveError>(true) {
                    let i = choose|i: int| 0 <= i < b.len() && (#[trigger] b1[i]).len() < b[i].len();
                    lemma_subset_len(b2[i], b1[i]);
                    assert(b2[i].len() < b[i].len());
                } else {
                    assert(take_result(s, known) == Ok::<bool, SolveError>(true));
                    lemma_subset_len(s, b[m]);
                    assert(b2[m].len() < b[m].len());
                }
            }
        }
    }
}

/// A pass only removes candidates, keeps the known cells, fails only with an invalid cell,
/// and reports a change only when some cell lost a candidate.
pub proof fn lemma_pass_prefix_shrinks(b: Seq<Set<u8>>, n: nat)
    requires
        b.len() == 81,
    ensures
        shrunk(b, pass_prefix(b, n).0),
        keeps_known(b, pass_prefix(b, n).0),
        pass_prefix(b, n).1 matches Ok(changed) ==> (changed ==> some_cell_shrunk(
            b,
            pass_prefix(b, n).0,
        )),
        pass_prefix(b, n).1 matches Err(e) ==> e == SolveError::InvalidCell,
        pass_prefix(b, n).1 == Ok::<bool, SolveError>(false) ==> pass_prefix(b, n).0 == b,
    decreases n,
{
    if n > 0 {
        lemma_pass_prefix_shrinks(b, (n - 1) as nat);
        let (b1, r1) = pass_prefix(b, (n - 1) as nat);
        if r1 is Ok {
            let u = ((n - 1) % 27) as int;
            crate::grid::lemma_unit_members_in(u);
            let ms = unit_members(u);
            lemma_slice_take_shrinks(b1, ms, crate::board::known_values(b1, ms));
            let (b2, r2) = unit_reduce(b1, ms);
            assert(shrunk(b, b2)) by {
                assert forall|i: int| 0 <= i < b.len() implies (#[trigger] b2[i]).subset_of(b[i]) by {
                    assert(b1[i].subset_of(b[i]));
                }
            }
            assert(keeps_known(b, b2)) by {
                assert forall|i: int| 0 <= i < b.len() && (#[trigger] b[i]).len() == 1 implies b2[i]
                    == b[i] by {
                    assert(b1[i] == b[i]);
                }
            }
            if pass_prefix(b, n).1 == Ok::<bool, SolveError>(false) {
                assert(r1 == Ok::<bool, SolveError>(false));
                assert(r2 == Ok::<bool, SolveError>(false));
            }
            if pass_prefix(b, n).1 == Ok::<bool, SolveError>(true) {
                if r1 == Ok::<bool, SolveError>(true) {
                    let i = choose|i: int| 0 <= i < b.len() && (#[trigger] b1[i]).len() < b[i].len();
                    lemma_subset_len(b2[i], b1[i]);
                } else {
                    let i = choose|i: int| 0 <= i < b1.len() && (#[trigger] b2[i]).len() < b1[i].len();
                    lemma_subset_len(b1[i], b[i]);
                }
            }
        }
    }
}

/// The number of candidates of the first `n` cells.
pub open spec fn candidate_count_prefix(b: Seq<Set<u8>>, n: nat) -> nat
    decreases n,
{
    if n == 0 {
        0
    } else {
        candidate_count_prefix(b, (n - 1) as nat) + b[n - 1].len()
    }
}

/// The number of candidates of all cells.
pub open spec fn candidate_count(b: Seq<Set<u8>>) -> nat {
    candidate_count_prefix(b, b.len())
}

/// Removing candidates lowers the count, strictly when some cell lost one.
pub proof fn lemma_candidate_count_prefix(b1: Seq<Set<u8>>, b2: Seq<Set<u8>>, n: nat)
    requires
        shrunk(b1, b2),
        n <= b1.len(),
    ensures
        candidate_count_prefix(b2, n) <= candidate_count_prefix(b1, n),
        (exists|i: int| 0 <= i < n && (#[trigger] b2[i]).len() < b1[i].len())
            ==> candidate_count_prefix(b2, n) < candidate_count_prefix(b1, n),
    decreases n,
{
    if n > 0 {
        lemma_candidate_count_prefix(b1, b2, (n - 1) as nat);
        lemma_subset_len(b2[n - 1], b1[n - 1]);
        if exists|i: int| 0 <= i < n && (#[trigger] b2[i]).len() < b1[i].len() {
            let i = choose|i: int| 0 <= i < n && (#[trigger] b2[i]).len() < b1[i].len();
            if i < n - 1 {
                assert(exists|i: int| 0 <= i < n - 1 && (#[trigger] b2[i]).len() < b1[i].len());
            }
        }
    }
}

/// A change in a pass lowers the total number of candidates.
pub proof fn lemma_candidate_count_drops(b1: Seq<Set<u8>>, b2: Seq<Set<u8>>)
    requires
        shrunk(b1, b2),
        some_cell_shrunk(b1, b2),
    ensures
        candidate_count(b2) < candidate_count(b1),
{
    lemma_candidate_count_prefix(b1, b2, b1.len());
}

/// The positions, among the members, of the known members, in order.
pub open spec fn known_positions(b: Seq<Set<u8>>, members: Seq<usize>) -> Seq<int>
    decreases members.len(),
{
    if members.len() == 0 {
        seq![]
    } else {
        let rest = known_positions(b, members.drop_last());
        if b[members.last() as int].len() == 1 {
            rest.push(members.len() - 1)
        } else {
            rest
        }
    }
}

/// Each known value of some cells is the value of the known member at the matching position.
pub proof fn lemma_known_positions(b: Seq<Set<u8>>, members: Seq<usize>)
    requires
        members_in(members, b.len() as int),
    ensures
        known_positions(b, members).len() == known_values(b, members).len(),
        forall|e: int|
            #![trigger known_positions(b, members)[e]]
            0 <= e < known_values(b, members).len() ==> {
                let j = known_positions(b, members)[e];
                &&& 0 <= j < members.len()
                &&& b[members[j] as int].len() == 1
                &&& known_values(b, members)[e] == known_value(b[members[j] as int])
            },
    decreases members.len(),
{
    if members.len() > 0 {
        let rest = members.drop_last();
        assert(members_in(rest, b.len() as int));
        lemma_known_positions(b, rest);
        let kv = known_values(b, members);
        let kp = known_positions(b, members);
        let kr = known_values(b, rest);
        let pr = known_positions(b, rest);
        assert forall|e: int| #![trigger kp[e]] 0 <= e < kv.len() implies {
            let j = kp[e];
            &&& 0 <= j < members.len()
            &&& b[members[j] as int].len() == 1
            &&& kv[e] == known_value(b[members[j] as int])
        } by {
            if e < kr.len() {
                let j = pr[e];
                assert(kp[e] == j);
                assert(kv[e] == kr[e]);
                assert(members[j] == rest[j]);
            } else {
                assert(kp[e] == members.len() - 1);
            }
        }
    }
}

/// The positions of the known members increase, and every known member has one.
pub proof fn lemma_known_positions_cover(b: Seq<Set<u8>>, members: Seq<usize>)
    requires
        members_in(members, b.len() as int),
    ensures
        forall|e1: int, e2: int|
            0 <= e1 < e2 < known_positions(b, members).len() ==> #[trigger] known_positions(
                b,
                members,
            )[e1] < #[trigger] known_positions(b, members)[e2],
        forall|j: int|
            0 <= j < members.len() && #[trigger] b[members[j] as int].len() == 1 ==> exists|e: int|
                0 <= e < known_positions(b, members).len() && #[trigger] known_positions(
                    b,
                    members,
                )[e] == j,
    decreases members.len(),
{
    lemma_known_positions(b, members);
    if members.len() > 0 {
        let rest = members.drop_last();
        assert(members_in(rest, b.len() as int));
        lemma_known_positions_cover(b, rest);
        lemma_known_positions(b, rest);
        let kp = known_positions(b, members);
        let pr = known_positions(b, rest);
        assert forall|e: int| 0 <= e < pr.len() implies #[trigger] pr[e] < rest.len() by {}
        assert forall|e1: int, e2: int| 0 <= e1 < e2 < kp.len() implies #[trigger] kp[e1] < #[trigger] kp[e2] by {
            assert(kp[e1] == pr[e1]);
            if e2 < pr.len() {
                assert(kp[e2] == pr[e2]);
            }
        }
        assert forall|j: int|
            0 <= j < members.len() && #[trigger] b[members[j] as int].len() == 1 implies exists|e: int|
            0 <= e < kp.len() && #[trigger] kp[e] == j by {
            if j < rest.len() {
                assert(rest[j] == members[j]);
                let e = choose|e: int| 0 <= e < pr.len() && #[trigger] pr[e] == j;
                assert(kp[e] == pr[e]);
            } else {
                assert(kp[pr.len() as int] == j);
            }
        }
    }
}

/// When every candidate is a digit, so is every known value.
pub proof fn lemma_known_values_digits(b: Seq<Set<u8>>, members: Seq<usize>)
    requires
        digits_only(b),
        members_in(members, b.len() as int),
    ensures
        known_digits(b, members),
{
    lemma_known_positions(b, members);
    let kv = known_values(b, members);
    assert forall|e: int| 0 <= e < kv.len() implies is_digit(#[trigger] kv[e] as int) by {
        let j = known_positions(b, members)[e];
        let s = b[members[j] as int];
        lemma_u8_set_finite(s);
        vstd::set::axiom_set_choose_len(s);
        assert(s.subset_of(digit_set()));
    }
}

/// Each known value of some cells is the value of the known member at the matching
/// position; under a solution that agrees with the board, it is the solution's value there.
pub proof fn lemma_known_values_source(b: Seq<Set<u8>>, members: Seq<usize>, sol: Seq<u8>)
    requires
        consistent(sol, b),
        members_in(members, 81),
    ensures
        known_positions(b, members).len() == known_values(b, members).len(),
        forall|e: int|
            #![trigger known_positions(b, members)[e]]
            0 <= e < known_values(b, members).len() ==> {
                let j = known_positions(b, members)[e];
                &&& 0 <= j < members.len()
                &&& b[members[j] as int].len() == 1
                &&& known_values(b, members)[e] == sol[members[j] as int]
            },
    decreases members.len(),
{
    if members.len() > 0 {
        let rest = members.drop_last();
        assert(members_in(rest, 81));
        lemma_known_values_source(b, rest, sol);
        let m = members.last() as int;
        let kv = known_values(b, members);
        let kp = known_positions(b, members);
        let kr = known_values(b, rest);
        let pr = known_positions(b, rest);
        assert forall|e: int| #![trigger kp[e]] 0 <= e < kv.len() implies {
            let j = kp[e];
            &&& 0 <= j < members.len()
            &&& b[members[j] as int].len() == 1
            &&& kv[e] == sol[members[j] as int]
        } by {
            if e < kr.len() {
                let j = pr[e];
                assert(kp[e] == j);
                assert(kv[e] == kr[e]);
                assert(members[j] == rest[j]);
            } else {
                assert(b[m].contains(sol[m]));
                lemma_singleton(b[m], sol[m]);
                assert(kp[e] == members.len() - 1);
            }
        }
    }
}

/// Taking known values from some cells keeps a solution's agreement with the board and
/// does not fail, provided no unknown cell has its solution value among the known values.
pub proof fn lemma_slice_take_consistent(
    b: Seq<Set<u8>>,
    members: Seq<usize>,
    known: Seq<u8>,
    sol: Seq<u8>,
)
    requires
        consistent(sol, b),
        digits_only(b),
        members_in(members, 81),
        forall|q: int|
            0 <= q < members.len() && (#[trigger] b[members[q] as int]).len() != 1
                ==> !known.contains(sol[members[q] as int]),
    ensures
        slice_take(b, members, known).1 is Ok,
        consistent(sol, slice_take(b, members, known).0),
        digits_only(slice_take(b, members, known).0),
    decreases members.len(),
{
    if members.len() > 0 {
        let rest = members.drop_last();
        assert(members_in(rest, 81));
        assert forall|q: int|
            0 <= q < rest.len() && (#[trigger] b[rest[q] as int]).len() != 1 implies !known.contains(
            sol[rest[q] as int]) by {
            assert(members[q] == rest[q]);
        }
        lemma_slice_take_consistent(b, rest, known, sol);
        lemma_slice_take_shrinks(b, rest, known);
        let (b1, r1) = slice_take(b, rest, known);
        let m = members.last() as int;
        let s = b1[m];
        let t = take_known(s, known);
        assert(s.contains(sol[m]));
        if s.len() != 1 {
            assert(b[m].len() != 1);
            assert(b[members[members.len() - 1] as int].len() != 1);
            assert(!known.contains(sol[m]));
            assert(t.contains(sol[m]));
            lemma_contains_len(t, sol[m]);
            lemma_digit_set_len();
            assert(t.subset_of(digit_set()));
            lemma_subset_len(t, digit_set());
        }
        let b2 = b1.update(m, t);
        assert(consistent(sol, b2)) by {
            assert forall|i: int| 0 <= i < 81 implies (#[trigger] b2[i]).contains(sol[i]) by {
                if i != m {
                    assert(b1[i].contains(sol[i]));
                }
            }
        }
        assert(digits_only(b2)) by {
            assert forall|i: int| 0 <= i < b2.len() implies (#[trigger] b2[i]).subset_of(digit_set()) by {
                assert(b1[i].subset_of(digit_set()));
            }
        }
    }
}

/// Reducing a unit keeps a solution's agreement with the board and does not fail.
pub proof fn lemma_unit_reduce_consistent(b: Seq<Set<u8>>, u: int, sol: Seq<u8>)
    requires
        0 <= u < 27,
        is_solution(sol),
        consistent(sol, b),
        digits_only(b),
    ensures
        unit_reduce(b, unit_members(u)).1 is Ok,
        consistent(sol, unit_reduce(b, unit_members(u)).0),
        digits_only(unit_reduce(b, unit_members(u)).0),
{
    let ms = unit_members(u);
    crate::grid::lemma_unit_members_in(u);
    let kv = known_values(b, ms);
    lemma_known_values_source(b, ms, sol);
    assert forall|q: int|
        0 <= q < ms.len() && (#[trigger] b[ms[q] as int]).len() != 1 implies !kv.contains(
        sol[ms[q] as int]) by {
        if kv.contains(sol[ms[q] as int]) {
            let e = choose|e: int| 0 <= e < kv.len() && kv[e] == sol[ms[q] as int];
            let j = known_positions(b, ms)[e];
            assert(j != q);
            assert(sol[unit_member(u, j)] != sol[unit_member(u, q)]);
        }
    }
    lemma_slice_take_consistent(b, ms, kv, sol);
}

/// A pass keeps a solution's agreement with the board and does not fail.
pub proof fn lemma_pass_prefix_consistent(b: Seq<Set<u8>>, n: nat, sol: Seq<u8>)
    requires
        is_solution(sol),
        consistent(sol, b),
        digits_only(b),
    ensures
        pass_prefix(b, n).1 is Ok,
        consistent(sol, pass_prefix(b, n).0),
        digits_only(pass_prefix(b, n).0),
    decreases n,
{
    if n > 0 {
        lemma_pass_prefix_consistent(b, (n - 1) as nat, sol);
        let b1 = pass_prefix(b, (n - 1) as nat).0;
        lemma_unit_reduce_consistent(b1, ((n - 1) % 27) as int, sol);
    }
}

/// The known values of cells on which a solution holds distinct digits are valid.
pub proof fn lemma_known_values_valid(b: Seq<Set<u8>>, members: Seq<usize>, sol: Seq<u8>)
    requires
        consistent(sol, b),
        members_in(members, 81),
        forall|j: int| 0 <= j < members.len() ==> is_digit(#[trigger] sol[members[j] as int] as int),
        forall|j: int, k: int|
            0 <= j < k < members.len() ==> #[trigger] sol[members[j] as int] != #[trigger] sol[members[k] as int],
    ensures
        valid_known(known_values(b, members)),
    decreases members.len(),
{
    if members.len() > 0 {
        let rest = members.drop_last();
        assert(members_in(rest, 81));
        assert forall|j: int, k: int| 0 <= j < k < rest.len() implies #[trigger] sol[rest[j] as int]
            != #[trigger] sol[rest[k] as int] by {
            assert(sol[members[j] as int] != sol[members[k] as int]);
        }
        assert forall|j: int| 0 <= j < rest.len() implies is_digit(#[trigger] sol[rest[j] as int] as int) by {
            assert(is_digit(sol[members[j] as int] as int));
        }
        lemma_known_values_valid(b, rest, sol);
        lemma_known_values_source(b, rest, sol);
        let m = members.last() as int;
        let kr = known_values(b, rest);
        if b[m].len() == 1 {
            assert(b[m].contains(sol[m]));
            lemma_singleton(b[m], sol[m]);
            let kv = known_values(b, members);
            assert(kv == kr.push(sol[m]));
            assert(is_digit(sol[members[members.len() - 1] as int] as int));
            assert forall|e: int| 0 <= e < kr.len() implies kr[e] != sol[m] by {
                let j = known_positions(b, rest)[e];
                assert(members[j] == rest[j]);
                assert(sol[members[j] as int] != sol[members[members.len() - 1] as int]);
            }
            assert forall|i: int, j: int| 0 <= i < j < kv.len() implies kv[i] != kv[j] by {
                if j == kr.len() {
                    assert(kr[i] != sol[m]);
                } else {
                    assert(kr[i] != kr[j]);
                }
            }
            assert forall|i: int| 0 <= i < kv.len() implies is_digit(#[trigger] kv[i] as int) by {
                if i < kr.len() {
                    assert(is_digit(kr[i] as int));
                }
            }
        }
    }
}

/// A board that some solution of digits agrees with is valid.
pub proof fn lemma_consistent_valid(b: Seq<Set<u8>>, sol: Seq<u8>)
    requires
        is_solution(sol),
        consistent(sol, b),
        digits_only(b),
    ensures
        board_valid(b),
{
    lemma_digit_set_len();
    assert(cells_valid(b)) by {
        assert forall|i: int| 0 <= i < b.len() implies 1 <= (#[trigger] b[i]).len() <= 9 by {
            lemma_contains_len(b[i], sol[i]);
            lemma_subset_len(b[i], digit_set());
        }
    }
    assert forall|u: int| 0 <= u < 27 implies #[trigger] unit_valid(b, u) by {
        let ms = unit_members(u);
        crate::grid::lemma_unit_members_in(u);
        assert forall|j: int, k: int| 0 <= j < k < ms.len() implies #[trigger] sol[ms[j] as int]
            != #[trigger] sol[ms[k] as int] by {
            assert(sol[unit_member(u, j)] != sol[unit_member(u, k)]);
        }
        assert forall|j: int| 0 <= j < ms.len() implies is_digit(#[trigger] sol[ms[j] as int] as int) by {
            assert(is_digit(sol[unit_member(u, j)] as int));
        }
        lemma_known_values_valid(b, ms, sol);
    }
}

/// When every one of some cells is known, their known values are their values in order.
pub proof fn lemma_known_values_all_known(b: Seq<Set<u8>>, members: Seq<usize>)
    requires
        members_in(members, b.len() as int),
        members_solved(b, members),
    ensures
        known_values(b, members) == Seq::new(members.len(), |j: int| known_value(b[members[j] as int])),
    decreases members.len(),
{
    if members.len() > 0 {
        let rest = members.drop_last();
        assert(members_in(rest, b.len() as int));
        assert(members_solved(b, rest)) by {
            assert forall|j: int| 0 <= j < rest.len() implies (#[trigger] b[rest[j] as int]).len() == 1 by {
                assert(b[members[j] as int].len() == 1);
            }
        }
        lemma_known_values_all_known(b, rest);
        assert(b[members[members.len() - 1] as int].len() == 1);
        assert(known_values(b, members) =~= Seq::new(
            members.len(),
            |j: int| known_value(b[members[j] as int]),
        ));
    }
}

/// A known member's value is among the known values of the members.
pub proof fn lemma_known_values_contains(b: Seq<Set<u8>>, members: Seq<usize>, j: int)
    requires
        members_in(members, b.len() as int),
        0 <= j < members.len(),
        b[members[j] as int].len() == 1,
    ensures
        known_values(b, members).contains(known_value(b[members[j] as int])),
    decreases members.len(),
{
    let kv = known_values(b, members);
    if j == members.len() - 1 {
        assert(kv[kv.len() - 1] == known_value(b[members[j] as int]));
    } else {
        let rest = members.drop_last();
        assert(members_in(rest, b.len() as int));
        assert(rest[j] == members[j]);
        lemma_known_values_contains(b, rest, j);
        let kr = known_values(b, rest);
        let e = choose|e: int| 0 <= e < kr.len() && kr[e] == known_value(b[members[j] as int]);
        assert(kv[e] == kr[e]);
    }
}

/// In a valid board every known cell holds a digit.
pub proof fn lemma_valid_known_digit(b: Seq<Set<u8>>, i: int)
    requires
        b.len() == 81,
        board_valid(b),
        0 <= i < 81,
        b[i].len() == 1,
    ensures
        is_digit(known_value(b[i]) as int),
{
    let r = 9 + i % 9;
    crate::grid::lemma_row_member(i);
    crate::grid::lemma_unit_members_in(r);
    let ms = unit_members(r);
    assert(ms[i / 9] == i);
    lemma_known_values_contains(b, ms, i / 9);
    assert(unit_valid(b, r));
    let kv = known_values(b, ms);
    let e = choose|e: int| 0 <= e < kv.len() && kv[e] == known_value(b[i]);
    assert(is_digit(kv[e] as int));
}

/// A board whose cells are all known and which is valid holds a solution, which agrees
/// with it.
pub proof fn lemma_solved_valid_solution(b: Seq<Set<u8>>)
    requires
        b.len() == 81,
        board_solved(b),
        board_valid(b),
    ensures
        is_solution(board_values(b)),
        consistent(board_values(b), b),
{
    let sol = board_values(b);
    assert forall|i: int| 0 <= i < 81 implies is_digit(#[trigger] sol[i] as int) by {
        lemma_valid_known_digit(b, i);
    }
    assert forall|u: int, j: int, k: int|
        0 <= u < 27 && 0 <= j < 9 && 0 <= k < 9 && j != k implies #[trigger] sol[unit_member(u, j)]
        != #[trigger] sol[unit_member(u, k)] by {
        let ms = unit_members(u);
        crate::grid::lemma_unit_members_in(u);
        assert(members_solved(b, ms));
        lemma_known_values_all_known(b, ms);
        assert(unit_valid(b, u));
        let kv = known_values(b, ms);
        assert(kv[j] == sol[unit_member(u, j)]);
        assert(kv[k] == sol[unit_member(u, k)]);
        if j < k {
            assert(kv[j] != kv[k]);
        } else {
            assert(kv[k] != kv[j]);
        }
    }
    assert forall|i: int| 0 <= i < 81 implies (#[trigger] b[i]).contains(sol[i]) by {
        lemma_u8_set_finite(b[i]);
        vstd::set::axiom_set_choose_len(b[i]);
    }
}

/// The number of cells among the first `n` that are not known.
pub open spec fn unknown_count_prefix(b: Seq<Set<u8>>, n: nat) -> nat
    decreases n,
{
    if n == 0 {
        0
    } else {
        unknown_count_prefix(b, (n - 1) as nat) + if b[n - 1].len() != 1 {
            1nat
        } else {
            0nat
        }
    }
}

/// The number of cells that are not known.
pub open spec fn unknown_count(b: Seq<Set<u8>>) -> nat {
    unknown_count_prefix(b, b.len())
}

/// Every cell known in `b1` is known in `b2`.
pub open spec fn knows_at_least(b1: Seq<Set<u8>>, b2: Seq<Set<u8>>) -> bool {
    &&& b1.len() == b2.len()
    &&& forall|i: int| 0 <= i < b1.len() && (#[trigger] b1[i]).len() == 1 ==> b2[i].len() == 1
}

/// Knowing more cells leaves fewer unknown ones, strictly fewer when some cell became known.
pub proof fn lemma_unknown_count_prefix(b1: Seq<Set<u8>>, b2: Seq<Set<u8>>, n: nat)
    requires
        knows_at_least(b1, b2),
        n <= b1.len(),
    ensures
        unknown_count_prefix(b2, n) <= unknown_count_prefix(b1, n),
        (exists|i: int| 0 <= i < n && (#[trigger] b1[i]).len() != 1 && b2[i].len() == 1)
            ==> unknown_count_prefix(b2, n) < unknown_count_prefix(b1, n),
    decreases n,
{
    if n > 0 {
        lemma_unknown_count_prefix(b1, b2, (n - 1) as nat);
        if exists|i: int| 0 <= i < n && (#[trigger] b1[i]).len() != 1 && b2[i].len() == 1 {
            let i = choose|i: int| 0 <= i < n && (#[trigger] b1[i]).len() != 1 && b2[i].len() == 1;
            if i < n - 1 {
                assert(exists|i: int| 0 <= i < n - 1 && (#[trigger] b1[i]).len() != 1 && b2[i].len() == 1);
            }
        }
    }
}

/// A guess made on a valid board keeps its known cells and knows one more: the guessed one.
pub proof fn lemma_guess_board_progress(b: Seq<Set<u8>>, idx: int, v: u8)
    requires
        b.len() == 81,
        board_valid(b),
        0 <= idx < 81,
        b[idx].len() != 1,
    ensures
        guess_board(b, idx, v).len() == 81,
        keeps_known(b, guess_board(b, idx, v)),
        unknown_count(guess_board(b, idx, v)) < unknown_count(b),
{
    let g = guess_board(b, idx, v);
    let p = board_puzzle(b);
    assert forall|i: int| 0 <= i < 81 && (#[trigger] b[i]).len() == 1 implies g[i] == b[i] by {
        assert(i != idx);
        assert(cell_index(i / 9, i % 9) == i);
        assert(p[i % 9][i / 9] == puzzle_entry(b, i / 9, i % 9));
        lemma_valid_known_digit(b, i);
        lemma_u8_set_finite(b[i]);
        vstd::set::axiom_set_choose_len(b[i]);
        lemma_singleton(b[i], known_value(b[i]));
    }
    assert(set![v].len() == 1) by {
        assert(set![v] == Set::<u8>::empty().insert(v));
    }
    assert(knows_at_least(b, g));
    lemma_unknown_count_prefix(b, g, 81);
}

/// A guess of a cell's solution value on a board that the solution agrees with is again a
/// board that the solution agrees with, of digits only.
pub proof fn lemma_guess_board_consistent(b: Seq<Set<u8>>, idx: int, sol: Seq<u8>)
    requires
        is_solution(sol),
        consistent(sol, b),
        0 <= idx < 81,
    ensures
        consistent(sol, guess_board(b, idx, sol[idx])),
        digits_only(guess_board(b, idx, sol[idx])),
{
    let g = guess_board(b, idx, sol[idx]);
    let p = board_puzzle(b);
    assert forall|i: int| 0 <= i < 81 implies (#[trigger] g[i]).contains(sol[i]) && g[i].subset_of(digit_set()) by {
        if i != idx {
            assert(cell_index(i / 9, i % 9) == i);
            assert(p[i % 9][i / 9] == puzzle_entry(b, i / 9, i % 9));
            if b[i].len() == 1 {
                assert(b[i].contains(sol[i]));
                lemma_singleton(b[i], sol[i]);
            }
        }
    }
}

} // verus!
