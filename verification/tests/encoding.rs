use sudoku_sat::sat::{SudokuSat, add_minimal_sudoku_constraints, add_puzzle_clues, set_cell};

#[test]
fn minimal_encoding_has_8829_clauses() {
    let mut model = SudokuSat::new();
    assert_eq!(model.n_clauses(), 0);
    add_minimal_sudoku_constraints(&mut model);
    assert_eq!(model.n_clauses(), 8829);
}

#[test]
fn empty_puzzle_adds_no_clue_clauses() {
    let mut model = SudokuSat::new();
    add_minimal_sudoku_constraints(&mut model);
    let empty: [[usize; 9]; 9] = [[0; 9]; 9];
    add_puzzle_clues(&mut model, &empty);
    assert_eq!(model.n_clauses(), 8829);
}

#[test]
fn each_nonzero_clue_adds_one_unit_clause() {
    let mut model = SudokuSat::new();
    let mut puzzle: [[usize; 9]; 9] = [[0; 9]; 9];
    puzzle[0][0] = 5;
    puzzle[4][4] = 7;
    puzzle[8][8] = 1;
    add_puzzle_clues(&mut model, &puzzle);
    assert_eq!(model.n_clauses(), 3);
}

#[test]
fn set_cell_appends_a_clause() {
    let mut model = SudokuSat::new();
    set_cell(&mut model, 2, 3, 4);
    assert_eq!(model.n_clauses(), 1);
}

#[test]
fn literal_map_is_injective_over_all_triples() {
    let model = SudokuSat::new();
    let mut seen = std::collections::HashSet::new();
    for r in 0..9 {
        for c in 0..9 {
            for d in 1..=9 {
                seen.insert(model.lit_var(r, c, d));
            }
        }
    }
    assert_eq!(seen.len(), 729);
}

#[test]
fn literal_map_is_immutable_across_lookups() {
    let model = SudokuSat::new();
    let first = model.lit_var(3, 5, 8);
    let again = model.lit_var(3, 5, 8);
    assert_eq!(first, again);
}
