use vstd::prelude::*;
use crate::grid::{Grid, gv, grid_wf, is_completion, lex_le};
use crate::sat::SatSudokuSolver;
use crate::backtracking::BacktrackingSudokuSolver;

verus! {

/// The one contract every solving strategy answers to: a returned grid is a
/// completion of the puzzle (complete, consistent, and keeping every clue).
pub trait SudokuSolver {
    fn solve(&mut self, puzzle: &Grid) -> (r: Option<Grid>)
        requires
            grid_wf(gv(*puzzle)),
        ensures
            (match r {
                Some(g) => is_completion(gv(*puzzle), gv(g)),
                None => true,
            }),
    ;
}

/// The tag a caller picks a strategy by.
pub enum SolverKind {
    Sat,
    Backtracking,
}

/// The closed sum of strategies, dispatched by pattern match.
pub enum Solver {
    Sat(SatSudokuSolver),
    Backtracking(BacktrackingSudokuSolver),
}

impl SudokuSolver for Solver {
    fn solve(&mut self, puzzle: &Grid) -> (r: Option<Grid>)
        ensures
            *old(self) is Backtracking ==> (match r {
                Some(g) => forall|s: Seq<Seq<usize>>|
                    #[trigger] is_completion(gv(*puzzle), s) ==> lex_le(gv(g), s),
                None => forall|s: Seq<Seq<usize>>| !#[trigger] is_completion(gv(*puzzle), s),
            }),
    {
        match self {
            Solver::Sat(inner) => inner.solve(puzzle),
            Solver::Backtracking(inner) => inner.solve(puzzle),
        }
    }
}

/// Map a strategy index, as a UI counts them, to its tag: index 1 is the
/// backtracking strategy, every other index falls back to SAT.
pub fn current_solver_kind(idx: usize) -> (k: SolverKind)
    ensures
        k is Backtracking <==> idx == 1,
{
    match idx {
        0 => SolverKind::Sat,
        1 => SolverKind::Backtracking,
        _ => SolverKind::Sat,
    }
}

/// The factory: each tag yields its strategy, fresh and stateless.
pub fn make_solver(kind: SolverKind) -> (s: Solver)
    ensures
        (match kind {
            SolverKind::Sat => s is Sat,
            SolverKind::Backtracking => s is Backtracking,
        }),
{
    match kind {
        SolverKind::Sat => Solver::Sat(SatSudokuSolver),
        SolverKind::Backtracking => Solver::Backtracking(BacktrackingSudokuSolver),
    }
}

} // verus!
