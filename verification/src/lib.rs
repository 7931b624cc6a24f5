//! A verified 9x9 Sudoku solving library.
//!
//! Two interchangeable strategies stand behind one `SudokuSolver` contract: a
//! reduction to propositional satisfiability, discharged by an external SAT
//! engine through rustsat's oracle interface, and a chronological
//! backtracking search. Every grid a strategy returns is proved to be a
//! completion of the puzzle: complete, consistent, and keeping every clue.

pub mod grid;
pub mod cnf;
pub mod oracle;
pub mod sat;
pub mod solver;
pub mod backtracking;
pub mod laws;
