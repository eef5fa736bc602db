use sudoku::cell::SolveError;
use sudoku::grid::Grid;
use sudoku::solver::startSolveRoutine;
use sudoku::units::Solver;

const PUZZLE: [[u8; 9]; 9] = [
    [5, 3, 0, 0, 7, 0, 0, 0, 0],
    [6, 0, 0, 1, 9, 5, 0, 0, 0],
    [0, 9, 8, 0, 0, 0, 0, 6, 0],
    [8, 0, 0, 0, 6, 0, 0, 0, 3],
    [4, 0, 0, 8, 0, 3, 0, 0, 1],
    [7, 0, 0, 0, 2, 0, 0, 0, 6],
    [0, 6, 0, 0, 0, 0, 2, 8, 0],
    [0, 0, 0, 4, 1, 9, 0, 0, 5],
    [0, 0, 0, 0, 8, 0, 0, 7, 9],
];

const SOLUTION: [[u8; 9]; 9] = [
    [5, 3, 4, 6, 7, 8, 9, 1, 2],
    [6, 7, 2, 1, 9, 5, 3, 4, 8],
    [1, 9, 8, 3, 4, 2, 5, 6, 7],
    [8, 5, 9, 7, 6, 1, 4, 2, 3],
    [4, 2, 6, 8, 5, 3, 7, 9, 1],
    [7, 1, 3, 9, 2, 4, 8, 5, 6],
    [9, 6, 1, 5, 3, 7, 2, 8, 4],
    [2, 8, 7, 4, 1, 9, 6, 3, 5],
    [3, 4, 5, 2, 8, 6, 1, 7, 9],
];

fn is_valid_solution(p: &[[u8; 9]; 9]) -> bool {
    for i in 0..9 {
        let mut row = [false; 10];
        let mut col = [false; 10];
        let mut sq = [false; 10];
        for j in 0..9 {
            let r = p[i][j] as usize;
            let c = p[j][i] as usize;
            let s = p[3 * (i / 3) + j / 3][3 * (i % 3) + j % 3] as usize;
            if r < 1 || r > 9 || c < 1 || c > 9 || s < 1 || s > 9 || row[r] || col[c] || sq[s] {
                return false;
            }
            row[r] = true;
            col[c] = true;
            sq[s] = true;
        }
    }
    true
}

fn extends(solution: &[[u8; 9]; 9], puzzle: &[[u8; 9]; 9]) -> bool {
    (0..9).all(|y| (0..9).all(|x| puzzle[y][x] == 0 || puzzle[y][x] == solution[y][x]))
}

#[test]
fn new_grid_shows_its_puzzle() {
    let g = Grid::New(PUZZLE);
    assert_eq!(g.Puzzle(), PUZZLE);
    assert!(g.KnownEquals(PUZZLE));
    assert!(!g.KnownEquals(SOLUTION));
    assert!(g.validate());
    assert!(!g.Solved());
}

#[test]
fn entries_that_are_not_digits_read_as_empty() {
    let mut p = PUZZLE;
    p[0][2] = 12;
    p[8][0] = 255;
    let g = Grid::New(p);
    assert_eq!(g.Puzzle(), PUZZLE);
}

#[test]
fn cells_know_their_place() {
    let g = Grid::New(PUZZLE);
    assert_eq!(g.m_cells.len(), 81);
    assert_eq!(g.m_cells[9 * 4 + 7].m_x, 4);
    assert_eq!(g.m_cells[9 * 4 + 7].m_y, 7);
    // column 0, row 0 holds 5; column 1, row 0 holds 3
    assert_eq!(g.m_cells[0].Known(), Ok(5));
    assert_eq!(g.m_cells[9].Known(), Ok(3));
}

#[test]
fn units_cover_squares_rows_and_columns() {
    let g = Grid::New(PUZZLE);
    assert_eq!(g.m_squares.len(), 9);
    assert_eq!(g.m_rows.len(), 9);
    assert_eq!(g.m_cols.len(), 9);
    assert_eq!(g.m_squares[0].m_cells.m_cells, vec![0, 1, 2, 9, 10, 11, 18, 19, 20]);
    assert_eq!(g.m_squares[5].m_cells.m_cells, vec![57, 58, 59, 66, 67, 68, 75, 76, 77]);
    assert_eq!(g.m_rows[2].m_cells.m_cells, vec![2, 11, 20, 29, 38, 47, 56, 65, 74]);
    assert!(g.m_rows[2].m_rowAligned);
    assert_eq!(g.m_rows[2].m_rowOrColNum, 2);
    assert_eq!(g.m_cols[3].m_cells.m_cells, vec![27, 28, 29, 30, 31, 32, 33, 34, 35]);
    assert!(!g.m_cols[3].m_rowAligned);
    assert_eq!(g.m_cols[3].m_rowOrColNum, 3);
    assert_eq!(g.m_rows[0].to_string(&g.m_cells), "53xx7xxxx");
    assert_eq!(g.m_squares[0].KnownInSquare(&g.m_cells), vec![5, 6, 3, 9, 8]);
    assert!(g.m_squares[0].validate(&g.m_cells));
    assert_eq!(g.m_rows[0].Solved(&g.m_cells), Ok(false));
    assert!(g.m_squares[0].AlignedCellOnlyPairs().is_empty());
}

#[test]
fn grid_text_shows_rows() {
    let g = Grid::New(PUZZLE);
    let text = g.to_string();
    let lines: Vec<&str> = text.lines().collect();
    assert_eq!(lines.len(), 9);
    assert_eq!(lines[0], "53xx7xxxx");
    assert_eq!(lines[8], "xxxx8xx79");
    assert!(text.ends_with('\n'));
}

#[test]
fn empty_grid_text_says_so() {
    assert_eq!(Grid::empty().to_string(), "Grid probably not initialised");
}

#[test]
fn total_possible_counts_free_cells() {
    let g = Grid::New(PUZZLE);
    let free = PUZZLE.iter().flatten().filter(|v| **v == 0).count();
    assert_eq!(g.TotalPossible(), 9 * free);
}

#[test]
fn copy_keeps_the_puzzle() {
    let g = Grid::New(PUZZLE);
    let d = g.DuplicateGrid();
    assert_eq!(d.Puzzle(), PUZZLE);
}

#[test]
fn set_known_fixes_one_cell() {
    let mut g = Grid::New(PUZZLE);
    g.setKnown(2, 0, 4);
    let p = g.Puzzle();
    assert_eq!(p[0][2], 4);
    assert_eq!(g.m_cells[18].Known(), Ok(4));
}

#[test]
fn reduction_pass_removes_candidates() {
    let mut g = Grid::New(PUZZLE);
    assert_eq!(g.reducePossiblePass(), Ok(true));
    // column 2, row 0 shares row 0 with 5, 3, 7, column 2 with 8 and square 0 with 6, 9, 8
    assert_eq!(g.m_cells[18].Possibles(), vec![1, 2, 4]);
    assert!(g.validate());
    assert!(extends(&g.Puzzle(), &PUZZLE));
}

#[test]
fn square_exclusion_changes_nothing() {
    let mut g = Grid::New(PUZZLE);
    assert_eq!(g.squareExclusionReduce(), Ok(false));
    assert_eq!(g.Puzzle(), PUZZLE);
}

#[test]
fn guesses_are_made_on_the_first_most_constrained_cell() {
    let g = Grid::New(PUZZLE);
    // without reduction every free cell has nine candidates: the first free cell is (0, 2)
    let guesses = g.GenerateGuessGrids();
    assert_eq!(guesses.len(), 9);
    for (k, guess) in guesses.iter().enumerate() {
        let p = guess.Puzzle();
        assert_eq!(p[2][0], (k + 1) as u8);
        let mut expected = PUZZLE;
        expected[2][0] = (k + 1) as u8;
        assert_eq!(p, expected);
    }
}

#[test]
fn guesses_follow_the_reduced_candidates() {
    let mut g = Grid::New(PUZZLE);
    g.reducePossiblePass().unwrap();
    let guesses = g.GenerateGuessGrids();
    assert!(!guesses.is_empty());
    for guess in guesses.iter() {
        assert!(extends(&guess.Puzzle(), &g.Puzzle()));
    }
}

#[test]
fn solved_grid_makes_no_guesses() {
    let g = Grid::New(SOLUTION);
    assert!(g.Solved());
    assert!(g.validate());
    assert!(g.GenerateGuessGrids().is_empty());
    assert_eq!(g.TotalPossible(), 0);
}

#[test]
fn solve_finds_the_solution() {
    let g = Grid::New(PUZZLE);
    let res = g.Solve().unwrap();
    assert!(res.Solved());
    let solved = res.Grid().unwrap();
    assert!(solved.Solved());
    assert!(solved.validate());
    assert_eq!(solved.Puzzle(), SOLUTION);
    assert!(solved.KnownEquals(SOLUTION));
}

#[test]
fn solve_a_puzzle_that_needs_guesses() {
    let hard: [[u8; 9]; 9] = [
        [8, 0, 0, 0, 0, 0, 0, 0, 0],
        [0, 0, 3, 6, 0, 0, 0, 0, 0],
        [0, 7, 0, 0, 9, 0, 2, 0, 0],
        [0, 5, 0, 0, 0, 7, 0, 0, 0],
        [0, 0, 0, 0, 4, 5, 7, 0, 0],
        [0, 0, 0, 1, 0, 0, 0, 3, 0],
        [0, 0, 1, 0, 0, 0, 0, 6, 8],
        [0, 0, 8, 5, 0, 0, 0, 1, 0],
        [0, 9, 0, 0, 0, 0, 4, 0, 0],
    ];
    let res = Grid::New(hard).Solve().unwrap();
    assert!(res.Solved());
    let p = res.Grid().unwrap().Puzzle();
    assert!(is_valid_solution(&p));
    assert!(extends(&p, &hard));
}

#[test]
fn solve_an_empty_puzzle() {
    let empty = [[0u8; 9]; 9];
    let res = Grid::New(empty).Solve().unwrap();
    assert!(res.Solved());
    assert!(is_valid_solution(&res.Grid().unwrap().Puzzle()));
}

#[test]
fn solve_reports_a_repeated_given_as_unsolved() {
    let mut p = PUZZLE;
    p[0][8] = 5; // row 0 now holds 5 twice
    let res = Grid::New(p).Solve().unwrap();
    assert!(!res.Solved());
    assert!(res.Grid().is_none());
}

#[test]
fn solve_reports_an_emptied_cell() {
    // square 2 knows 1 to 7, which leaves cell (8, 0) with 8 and 9; row 0 then takes both
    let mut p = [[0u8; 9]; 9];
    p[0][0] = 8;
    p[0][1] = 9;
    p[0][6] = 1;
    p[0][7] = 2;
    p[1][6] = 3;
    p[1][7] = 4;
    p[1][8] = 5;
    p[2][6] = 6;
    p[2][7] = 7;
    match Grid::New(p).Solve() {
        Err(e) => assert_eq!(e, SolveError::InvalidCell),
        Ok(_) => panic!("expected an invalid cell"),
    }
}

#[test]
fn solve_gives_up_when_no_guess_works() {
    // the first three cells of row 0 may only take 1 or 2: every guess runs into a repeat
    let mut p = [[0u8; 9]; 9];
    p[0] = [0, 0, 0, 4, 5, 6, 7, 8, 9];
    p[1][0] = 3;
    match Grid::New(p).Solve() {
        Err(e) => assert_eq!(e, SolveError::UnableToSolve),
        Ok(_) => panic!("expected the search to give up"),
    }
}

#[test]
fn routine_hands_back_the_result() {
    let r = startSolveRoutine(Grid::New(PUZZLE)).unwrap();
    assert!(r.Solved());
    let mut bad = PUZZLE;
    bad[0][8] = 5;
    let r = startSolveRoutine(Grid::New(bad)).unwrap();
    assert!(!r.Solved());
}

#[test]
fn reduction_keeps_the_solution_candidates() {
    let mut g = Grid::New(PUZZLE);
    while g.reducePossiblePass() == Ok(true) {}
    for x in 0..9 {
        for y in 0..9 {
            assert!(g.m_cells[9 * x + y].Possibles().contains(&SOLUTION[y][x]));
        }
    }
}

#[test]
fn some_guess_leads_to_the_solution() {
    let hard: [[u8; 9]; 9] = [
        [8, 0, 0, 0, 0, 0, 0, 0, 0],
        [0, 0, 3, 6, 0, 0, 0, 0, 0],
        [0, 7, 0, 0, 9, 0, 2, 0, 0],
        [0, 5, 0, 0, 0, 7, 0, 0, 0],
        [0, 0, 0, 0, 4, 5, 7, 0, 0],
        [0, 0, 0, 1, 0, 0, 0, 3, 0],
        [0, 0, 1, 0, 0, 0, 0, 6, 8],
        [0, 0, 8, 5, 0, 0, 0, 1, 0],
        [0, 9, 0, 0, 0, 0, 4, 0, 0],
    ];
    let solution = Grid::New(hard).Solve().unwrap().Grid().unwrap().Puzzle();
    let mut g = Grid::New(hard);
    while g.reducePossiblePass() == Ok(true) {}
    let guesses = g.GenerateGuessGrids();
    assert!(guesses.iter().any(|guess| extends(&solution, &guess.Puzzle())));
}

#[test]
fn solving_keeps_the_givens() {
    let res = Grid::New(PUZZLE).Solve().unwrap();
    assert!(extends(&res.Grid().unwrap().Puzzle(), &PUZZLE));
}

#[test]
fn solving_a_solved_grid_returns_it() {
    let res = Grid::New(SOLUTION).Solve().unwrap();
    assert!(res.Solved());
    assert_eq!(res.Grid().unwrap().Puzzle(), SOLUTION);
}
