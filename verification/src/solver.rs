//! The search: reduce until nothing changes, then guess on the most constrained cell and
//! search each guess in turn.

use crate::board::{
    best_guess, board_solved, board_valid, board_values, consistent, digits_only, guess_board,
    is_solution, keeps_known, reduce_pass, solvable,
};
use crate::cell::{
    digit_set, lemma_digit_set_len, lemma_sorted_candidates, sorted_candidates, SolveError,
};
use crate::grid::{lemma_best_guess_prefix_bounds, Grid};
use crate::lemmas::{
    candidate_count, knows_at_least, lemma_candidate_count_drops, lemma_consistent_valid,
    lemma_contains_len, lemma_guess_board_consistent, lemma_guess_board_progress,
    lemma_pass_prefix_consistent, lemma_pass_prefix_shrinks, lemma_solved_valid_solution,
    lemma_subset_len, lemma_unknown_count_prefix, unknown_count,
};
use vstd::prelude::*;

verus! {

/// Reducing until a pass changes nothing: the board reached, nothing when a pass leaves the
/// board invalid, or the failure of a pass.
pub open spec fn settle(b: Seq<Set<u8>>) -> Result<Option<Seq<Set<u8>>>, SolveError>
    decreases candidate_count(b),
    when b.len() == 81
{
    let (b1, r) = reduce_pass(b);
    match r {
        Err(e) => Err(e),
        Ok(changed) => {
            if !board_valid(b1) {
                Ok(None)
            } else if changed {
                proof {
                    lemma_pass_prefix_shrinks(b, 54);
                    lemma_candidate_count_drops(b, b1);
                }
                settle(b1)
            } else {
                Ok(Some(b1))
            }
        },
    }
}

/// What the search gives for a board: the solved board it reaches, nothing when the board
/// turns out invalid, or a failure.
pub open spec fn search(b: Seq<Set<u8>>) -> Result<Option<Seq<Set<u8>>>, SolveError>
    decreases unknown_count(b), 2int, 0int,
    when b.len() == 81
{
    match settle(b) {
        Err(e) => Err(e),
        Ok(None) => Ok(None),
        Ok(Some(b1)) => {
            if board_solved(b1) {
                Ok(Some(b1))
            } else {
                proof {
                    lemma_settle_props(b);
                    lemma_unknown_count_prefix(b, b1, 81);
                }
                search_guesses(b1, 0)
            }
        },
    }
}

/// The search over the guesses on settled board `b`, from the `k`-th on: the first guess
/// whose search solves, or a failure when none does.
pub open spec fn search_guesses(b: Seq<Set<u8>>, k: int) -> Result<Option<Seq<Set<u8>>>, SolveError>
    decreases unknown_count(b), 1int, sorted_candidates(b[best_guess(b).0]).len() - k,
    when b.len() == 81 && board_valid(b) && 0 <= k
{
    let idx = best_guess(b).0;
    if idx < 0 {
        Err(SolveError::UnableToSolve)
    } else {
        let cands = sorted_candidates(b[idx]);
        if k >= cands.len() {
            Err(SolveError::UnableToSolve)
        } else {
            proof {
                lemma_best_guess_prefix_bounds(b, 81);
                lemma_guess_board_progress(b, idx, cands[k]);
            }
            match search(guess_board(b, idx, cands[k])) {
                Ok(Some(h)) => Ok(Some(h)),
                _ => search_guesses(b, k + 1),
            }
        }
    }
}

/// A settled board has 81 cells, is valid and keeps every cell known at the start; a
/// settling fails only with an invalid cell.
pub proof fn lemma_settle_props(b: Seq<Set<u8>>)
    requires
        b.len() == 81,
    ensures
        settle(b) matches Ok(Some(b1)) ==> b1.len() == 81 && board_valid(b1) && keeps_known(b, b1),
        settle(b) matches Err(e) ==> e == SolveError::InvalidCell,
    decreases candidate_count(b),
{
    let (b1, r) = reduce_pass(b);
    lemma_pass_prefix_shrinks(b, 54);
    if r == Ok::<bool, SolveError>(true) && board_valid(b1) {
        lemma_candidate_count_drops(b, b1);
        lemma_settle_props(b1);
    }
}

/// The outcome of a search: whether it solved the puzzle, and the solved grid if so.
pub struct SolveResult {
    pub m_grid: Option<Grid>,
    pub m_solved: bool,
}

/// `h` is a solution found for a search that started from board `b`: all its cells are
/// known, it is valid, it keeps every cell that was known in `b`, and its values solve the
/// puzzle.
pub open spec fn found_solution(b: Seq<Set<u8>>, h: Grid) -> bool {
    &&& h.wf()
    &&& board_solved(h.board())
    &&& board_valid(h.board())
    &&& keeps_known(b, h.board())
    &&& is_solution(board_values(h.board()))
}

/// A search result for board `b` holds a grid exactly when it reports success, and that grid
/// is a solution found from `b`.
pub open spec fn sound_result(b: Seq<Set<u8>>, r: SolveResult) -> bool {
    &&& (r.m_solved <==> r.m_grid is Some)
    &&& r.m_grid matches Some(h) ==> found_solution(b, h)
}

/// What a search result says: the solved board, nothing, or the failure.
pub open spec fn outcome(res: Result<SolveResult, SolveError>) -> Result<Option<Seq<Set<u8>>>, SolveError> {
    match res {
        Ok(r) => if r.m_solved && r.m_grid is Some {
            Ok(Some(r.m_grid->Some_0.board()))
        } else {
            Ok(None)
        },
        Err(e) => Err(e),
    }
}

impl SolveResult {
    /// The solved grid, if any.
    #[allow(non_snake_case)]
    pub fn Grid(&self) -> (res: Option<&Grid>)
        ensures
            res is Some <==> self.m_grid is Some,
            res matches Some(g) ==> self.m_grid == Some(*g),
    {
        self.m_grid.as_ref()
    }

    /// Whether the search solved the puzzle.
    #[allow(non_snake_case)]
    pub fn Solved(&self) -> (res: bool)
        ensures
            res == self.m_solved,
    {
        self.m_solved
    }
}

/// Searches from one guess and hands back the result, or nothing when the search failed.
#[allow(non_snake_case)]
pub fn startSolveRoutine(g: Grid) -> (res: Option<SolveResult>)
    requires
        g.wf(),
    ensures
        res matches Some(r) ==> sound_result(g.board(), r) && outcome(Ok(r)) == search(g.board()),
        res is None <==> search(g.board()) is Err,
        solvable(g.board()) && digits_only(g.board()) ==> (res matches Some(r) && r.m_solved),
    decreases unknown_count(g.board()), 2nat,
{
    match g.Solve() {
        Ok(r) => Some(r),
        Err(_) => None,
    }
}

impl Grid {
    /// Solves the puzzle: reduces candidates until a pass changes nothing, gives up on this
    /// grid when it becomes invalid, reports it when every cell is known, and otherwise
    /// searches the guesses on the most constrained cell in turn, reporting the first that
    /// solves. Fails when a reduction leaves a cell without candidates or when no guess solves.
    #[allow(non_snake_case)]
    pub fn Solve(self) -> (res: Result<SolveResult, SolveError>)
        requires
            self.wf(),
        ensures
            outcome(res) == search(self.board()),
            res matches Ok(r) ==> sound_result(self.board(), r),
            res matches Err(e) ==> (e == SolveError::InvalidCell || e == SolveError::UnableToSolve),
            solvable(self.board()) && digits_only(self.board()) ==> (res matches Ok(r) && r.m_solved),
        decreases unknown_count(self.board()), 1nat,
    {
        let ghost b_in = self.board();
        let mut g = self;
        loop
            invariant_except_break
                settle(g.board()) == settle(b_in),
            invariant
                g.wf(),
                b_in == self.board(),
                b_in.len() == 81,
                keeps_known(b_in, g.board()),
                forall|sol: Seq<u8>|
                    is_solution(sol) && consistent(sol, b_in) && digits_only(b_in) ==> consistent(
                        sol,
                        g.board(),
                    ) && digits_only(g.board()),
            ensures
                g.wf(),
                settle(b_in) == Ok::<Option<Seq<Set<u8>>>, SolveError>(Some(g.board())),
                keeps_known(b_in, g.board()),
                board_valid(g.board()),
                forall|sol: Seq<u8>|
                    is_solution(sol) && consistent(sol, b_in) && digits_only(b_in) ==> consistent(
                        sol,
                        g.board(),
                    ) && digits_only(g.board()),
            decreases candidate_count(g.board()),
        {
            let ghost before = g.board();
            let pass = g.reducePossiblePass();
            proof {
                lemma_pass_prefix_shrinks(before, 54);
                assert forall|sol: Seq<u8>|
                    is_solution(sol) && consistent(sol, b_in) && digits_only(b_in) implies consistent(
                    sol,
                    g.board(),
                ) && digits_only(g.board()) && pass is Ok by {
                    lemma_pass_prefix_consistent(before, 54, sol);
                }
                assert(keeps_known(b_in, g.board())) by {
                    assert forall|i: int|
                        0 <= i < 81 && (#[trigger] b_in[i]).len() == 1 implies g.board()[i]
                        == b_in[i] by {
                        assert(before[i] == b_in[i]);
                    }
                }
            }
            let changed = match pass {
                Err(e) => {
                    proof {
                        if solvable(b_in) && digits_only(b_in) {
                            let sol = choose|sol: Seq<u8>| is_solution(sol) && consistent(sol, b_in);
                            assert(pass is Ok);
                        }
                    }
                    return Err(e);
                },
                Ok(c) => c,
            };
            if !g.validate() {
                proof {
                    if solvable(b_in) && digits_only(b_in) {
                        let sol = choose|sol: Seq<u8>| is_solution(sol) && consistent(sol, b_in);
                        lemma_consistent_valid(g.board(), sol);
                    }
                }
                return Ok(SolveResult { m_grid: None, m_solved: false });
            }
            if !changed {
                break;
            }
            proof {
                lemma_candidate_count_drops(before, g.board());
            }
        }
        if g.Solved() {
            proof {
                lemma_solved_valid_solution(g.board());
            }
            return Ok(SolveResult { m_grid: Some(g), m_solved: true });
        }
        let ghost b = g.board();
        let mut guesses = g.GenerateGuessGrids();
        let ghost all = guesses@;
        proof {
            assert(all.len() == guesses.len());
            lemma_best_guess_prefix_bounds(b, 81);
        }
        let ghost idx = best_guess(b).0;
        let ghost cands = if idx >= 0 { sorted_candidates(b[idx]) } else { Seq::<u8>::empty() };
        proof {
            assert(knows_at_least(b_in, b));
            lemma_unknown_count_prefix(b_in, b, 81);
            if idx >= 0 {
                assert forall|k: int| 0 <= k < all.len() implies unknown_count(
                    #[trigger] all[k].board(),
                ) < unknown_count(b_in) && keeps_known(b, all[k].board()) by {
                    lemma_guess_board_progress(b, idx, cands[k]);
                }
            }
        }
        let mut i: usize = 0;
        while guesses.len() > 0
            invariant
                i <= all.len(),
                all.len() <= usize::MAX,
                guesses@ == all.subrange(i as int, all.len() as int),
                b_in == self.board(),
                board_valid(b),
                search(b_in) == search_guesses(b, i as int),
                b_in.len() == 81,
                b.len() == 81,
                keeps_known(b_in, b),
                idx == best_guess(b).0,
                idx >= 0 ==> cands == sorted_candidates(b[idx]),
                idx < 0 ==> all.len() == 0,
                idx >= 0 ==> all.len() == cands.len(),
                forall|k: int|
                    0 <= k < all.len() ==> {
                        &&& (#[trigger] all[k]).wf()
                        &&& all[k].board() == guess_board(b, idx, cands[k])
                        &&& unknown_count(all[k].board()) < unknown_count(b_in)
                        &&& keeps_known(b, all[k].board())
                    },
                forall|j: int|
                    0 <= j < i ==> !(solvable(#[trigger] all[j].board()) && digits_only(
                        all[j].board(),
                    )),
            decreases guesses.len(),
        {
            let guess = guesses.remove(0);
            proof {
                assert(idx >= 0);
                assert(guess == all[i as int]);
                assert(guesses@ == all.subrange(i + 1, all.len() as int));
            }
            let found = startSolveRoutine(guess);
            match found {
                Some(r) => {
                    if r.m_solved {
                        proof {
                            let h = r.m_grid->Some_0;
                            let gb = all[i as int].board();
                            assert(keeps_known(b_in, h.board())) by {
                                assert forall|c: int|
                                    0 <= c < 81 && (#[trigger] b_in[c]).len() == 1 implies h.board()[c]
                                    == b_in[c] by {
                                    assert(b[c] == b_in[c]);
                                    assert(gb[c] == b[c]);
                                }
                            }
                        }
                        return Ok(r);
                    }
                },
                None => {},
            }
            i = i + 1;
        }
        proof {
            if solvable(b_in) && digits_only(b_in) {
                let sol = choose|sol: Seq<u8>| is_solution(sol) && consistent(sol, b_in);
                assert(consistent(sol, b) && digits_only(b));
                let c = choose|c: int| 0 <= c < 81 && (#[trigger] b[c]).len() != 1;
                lemma_contains_len(b[c], sol[c]);
                lemma_digit_set_len();
                lemma_subset_len(b[c], digit_set());
                assert(idx >= 0);
                lemma_sorted_candidates(b[idx]);
                assert(cands.to_set().contains(sol[idx]));
                let k = choose|k: int| 0 <= k < cands.len() && cands[k] == sol[idx];
                lemma_guess_board_consistent(b, idx, sol);
                assert(consistent(sol, all[k].board()));
                assert(solvable(all[k].board()));
            }
        }
        Err(SolveError::UnableToSolve)
    }
}

} // verus!
