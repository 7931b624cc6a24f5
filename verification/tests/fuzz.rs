use sudoku_sat::solver::{make_solver, SolverKind, SudokuSolver};

type Grid = [[usize; 9]; 9];

fn solve_with(kind: SolverKind, puzzle: &Grid) -> Option<Grid> {
    let mut solver = make_solver(kind);
    solver.solve(puzzle)
}

fn keeps_clues(p: &Grid, s: &Grid) -> bool {
    (0..9).all(|r| (0..9).all(|c| p[r][c] == 0 || s[r][c] == p[r][c]))
}

fn fits(g: &Grid, row: usize, col: usize, d: usize) -> bool {
    for c in 0..9 {
        if g[row][c] == d {
            return false;
        }
    }
    for r in 0..9 {
        if g[r][col] == d {
            return false;
        }
    }
    let (br, bc) = ((row / 3) * 3, (col / 3) * 3);
    for r in br..br + 3 {
        for c in bc..bc + 3 {
            if g[r][c] == d {
                return false;
            }
        }
    }
    true
}

/// Counts completions, stopping as soon as `limit` are found.
fn count_solutions(g: &mut Grid, limit: usize) -> usize {
    for r in 0..9 {
        for c in 0..9 {
            if g[r][c] == 0 {
                let mut found = 0;
                for d in 1..=9 {
                    if fits(g, r, c, d) {
                        g[r][c] = d;
                        found += count_solutions(g, limit - found);
                        g[r][c] = 0;
                        if found >= limit {
                            return found;
                        }
                    }
                }
                return found;
            }
        }
    }
    1
}

#[test]
fn random_solvable_puzzles_keep_clues_and_strategies_agree() {
    // a deterministic linear congruential generator stands in for randomness
    let mut state: u64 = 0x2545_f491_4f6c_dd1d;
    let mut next = move || {
        state = state.wrapping_mul(6364136223846793005).wrapping_add(1442695040888963407);
        (state >> 33) as usize
    };

    // a pool of solved grids to carve puzzles out of
    let mut seed: Grid = [[0; 9]; 9];
    for i in 0..9 {
        seed[0][i] = i + 1;
    }
    let base = solve_with(SolverKind::Backtracking, &seed).expect("seed row is completable");

    let mut tested = 0;
    while tested < 100 {
        // blank a handful of cells, keeping the completion unique
        let mut puzzle = base;
        let blanks = 3 + next() % 6;
        for _ in 0..blanks {
            let r = next() % 9;
            let c = next() % 9;
            let saved = puzzle[r][c];
            puzzle[r][c] = 0;
            let mut probe = puzzle;
            if count_solutions(&mut probe, 2) != 1 {
                puzzle[r][c] = saved;
            }
        }

        let sat = solve_with(SolverKind::Sat, &puzzle).expect("carved puzzle stays solvable");
        let bt = solve_with(SolverKind::Backtracking, &puzzle).expect("carved puzzle stays solvable");
        assert!(keeps_clues(&puzzle, &sat));
        assert!(keeps_clues(&puzzle, &bt));
        assert_eq!(sat, bt);
        assert_eq!(sat, base);
        tested += 1;
    }
}
