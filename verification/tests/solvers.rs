use sudoku_sat::grid::default_puzzle;
use sudoku_sat::sat::{SatOutcome, SatSudokuSolver};
use sudoku_sat::solver::{current_solver_kind, make_solver, SolverKind, SudokuSolver};

type Grid = [[usize; 9]; 9];

fn solve_with(kind: SolverKind, puzzle: &Grid) -> Option<Grid> {
    let mut solver = make_solver(kind);
    solver.solve(puzzle)
}

fn is_consistent(g: &Grid) -> bool {
    for r1 in 0..9 {
        for c1 in 0..9 {
            if g[r1][c1] == 0 {
                continue;
            }
            for r2 in 0..9 {
                for c2 in 0..9 {
                    if (r1, c1) == (r2, c2) {
                        continue;
                    }
                    let same_unit = r1 == r2 || c1 == c2 || (r1 / 3 == r2 / 3 && c1 / 3 == c2 / 3);
                    if same_unit && g[r1][c1] == g[r2][c2] {
                        return false;
                    }
                }
            }
        }
    }
    true
}

fn is_complete(g: &Grid) -> bool {
    is_consistent(g) && g.iter().all(|row| row.iter().all(|&d| (1..=9).contains(&d)))
}

fn keeps_clues(p: &Grid, s: &Grid) -> bool {
    (0..9).all(|r| (0..9).all(|c| p[r][c] == 0 || s[r][c] == p[r][c]))
}

fn standard_puzzle() -> Grid {
    [
        [0, 3, 6, 0, 0, 0, 9, 0, 0],
        [1, 0, 0, 5, 3, 0, 2, 0, 0],
        [0, 0, 4, 0, 0, 0, 0, 0, 6],
        [0, 4, 7, 0, 0, 0, 0, 5, 3],
        [0, 0, 0, 0, 0, 8, 0, 6, 9],
        [6, 9, 0, 0, 4, 0, 0, 0, 0],
        [0, 0, 0, 8, 0, 7, 0, 0, 1],
        [0, 0, 2, 0, 0, 0, 0, 0, 4],
        [0, 8, 5, 0, 0, 0, 0, 2, 0],
    ]
}

#[test]
fn standard_puzzle_both_strategies() {
    let p = standard_puzzle();
    let sat = solve_with(SolverKind::Sat, &p).expect("SAT strategy must solve it");
    let bt = solve_with(SolverKind::Backtracking, &p).expect("backtracking must solve it");
    assert!(is_complete(&sat));
    assert!(keeps_clues(&p, &sat));
    assert!(is_complete(&bt));
    assert!(keeps_clues(&p, &bt));
    assert_eq!(sat, bt);
}

#[test]
fn already_solved_grid_passes_through_unchanged() {
    let p = standard_puzzle();
    let solved = solve_with(SolverKind::Backtracking, &p).unwrap();
    assert!(is_complete(&solved));
    assert_eq!(solve_with(SolverKind::Sat, &solved), Some(solved));
    assert_eq!(solve_with(SolverKind::Backtracking, &solved), Some(solved));
}

#[test]
fn empty_grid_both_strategies_complete_it() {
    let p: Grid = [[0; 9]; 9];
    let sat = solve_with(SolverKind::Sat, &p).expect("empty grid is solvable");
    let bt = solve_with(SolverKind::Backtracking, &p).expect("empty grid is solvable");
    assert!(is_complete(&sat));
    assert!(is_complete(&bt));
}

#[test]
fn infeasible_pair_in_row_returns_none() {
    let mut p: Grid = [[0; 9]; 9];
    p[0][0] = 5;
    p[0][1] = 5;
    assert_eq!(solve_with(SolverKind::Sat, &p), None);
    assert_eq!(solve_with(SolverKind::Backtracking, &p), None);
}

#[test]
fn infeasible_pair_in_column_returns_none() {
    let mut p: Grid = [[0; 9]; 9];
    p[0][0] = 7;
    p[8][0] = 7;
    assert_eq!(solve_with(SolverKind::Sat, &p), None);
    assert_eq!(solve_with(SolverKind::Backtracking, &p), None);
}

#[test]
fn infeasible_pair_in_box_returns_none() {
    let mut p: Grid = [[0; 9]; 9];
    p[3][3] = 2;
    p[5][5] = 2;
    assert_eq!(solve_with(SolverKind::Sat, &p), None);
    assert_eq!(solve_with(SolverKind::Backtracking, &p), None);
}

#[test]
fn single_cell_puzzle_keeps_its_clue() {
    let mut p: Grid = [[0; 9]; 9];
    p[4][4] = 7;
    let sat = solve_with(SolverKind::Sat, &p).expect("solvable");
    let bt = solve_with(SolverKind::Backtracking, &p).expect("solvable");
    assert!(is_complete(&sat));
    assert!(is_complete(&bt));
    assert_eq!(sat[4][4], 7);
    assert_eq!(bt[4][4], 7);
}

#[test]
fn classified_outcome_distinguishes_unsatisfiable_puzzles() {
    let mut p: Grid = [[0; 9]; 9];
    p[0][0] = 5;
    p[0][1] = 5;
    assert!(matches!(
        SatSudokuSolver::solve_classified(&p),
        SatOutcome::NoSolution
    ));
}

#[test]
fn classified_outcome_yields_a_solution_for_the_empty_grid() {
    let p: Grid = [[0; 9]; 9];
    match SatSudokuSolver::solve_classified(&p) {
        SatOutcome::Solution(g) => assert!(is_complete(&g)),
        _ => panic!("empty grid must be reported solvable"),
    }
}

#[test]
fn default_puzzle_is_the_documented_sample() {
    assert_eq!(default_puzzle(), standard_puzzle());
}

#[test]
fn solver_index_picks_the_strategy() {
    assert!(matches!(current_solver_kind(0), SolverKind::Sat));
    assert!(matches!(current_solver_kind(1), SolverKind::Backtracking));
    assert!(matches!(current_solver_kind(7), SolverKind::Sat));
}

#[test]
fn repeated_backtracking_calls_return_the_same_grid() {
    let p = standard_puzzle();
    let first = solve_with(SolverKind::Backtracking, &p);
    let second = solve_with(SolverKind::Backtracking, &p);
    assert_eq!(first, second);
}

#[test]
fn backtracking_returns_lexicographically_least_completion_of_empty() {
    let p: Grid = [[0; 9]; 9];
    let bt = solve_with(SolverKind::Backtracking, &p).unwrap();
    assert_eq!(bt[0], [1, 2, 3, 4, 5, 6, 7, 8, 9]);
}
