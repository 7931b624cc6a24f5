use vstd::prelude::*;
use crate::grid::{
    Grid, gv, grid_wf, is_completion, complete, same_unit, zeros_in_row, zeros_up_to,
    count_zeros,
};
use crate::cnf::{
    var_of, pos_lit, unit_clause, cell_clause, pair_clause, sol_set, all_sat, clause_prefix,
    has_clause, covers_clues, covers_cells, covers_row_pairs, covers_col_pairs, covers_box_pairs,
    clue_units, clue_units_up_to, clue_units_in_row, is_rule_clause, rules_only_appended,
    covers_rules, lemma_all_sat_push, lemma_clause_prefix_push, lemma_clause_prefix_trans,
    lemma_has_clause_prefix, lemma_has_clauses_mono, lemma_covers_rules_prefix, lemma_completion_sat_unit,
    lemma_complete_sat_cell, lemma_complete_sat_pair, cell_decoded, decoded_matches,
    lemma_decode_correct, cell_exactly_one, lemma_model_determines_cell,
};
use crate::oracle::{
    CnfInstance, instance_clauses, instance_n_vars, inst_new, inst_new_var, inst_add_unit,
    inst_add_pair_neg, inst_add_clause_pos, inst_n_clauses, Verdict, oracle_new, oracle_load,
    oracle_run, oracle_solution, assignment_var_true, assignment_true_vars, solver_clauses,
};
use crate::solver::SudokuSolver;

verus! {

/// The SAT model of one solve: the growing clause collection and the literal
/// map from (row, col, digit) to the variable asserting that placement.
pub struct SudokuSat {
    pub instance: CnfInstance,
    pub literals: Vec<Vec<Vec<usize>>>,
}

impl SudokuSat {
    /// The literal map is total and canonical: entry (r, c, k) is the variable
    /// of digit k + 1 at cell (r, c), and the instance owns all 729 variables.
    pub open spec fn wf(self) -> bool {
        &&& self.literals@.len() == 9
        &&& (forall|r: int| 0 <= r < 9 ==> (#[trigger] self.literals@[r])@.len() == 9)
        &&& (forall|r: int, c: int|
            0 <= r < 9 && 0 <= c < 9 ==> (#[trigger] self.literals@[r]@[c])@.len() == 9)
        &&& (forall|r: int, c: int, k: int|
            0 <= r < 9 && 0 <= c < 9 && 0 <= k < 9 ==> (#[trigger] self.literals@[r]@[c]@[k]) as int
                == var_of(r, c, k + 1))
        &&& instance_n_vars(self.instance) == 729
    }

    /// Allocate the 729 fresh literals in canonical scan order: row-major,
    /// digit-ascending.
    pub fn new() -> (m: SudokuSat)
        ensures
            m.wf(),
            instance_clauses(m.instance) == Seq::<Seq<int>>::empty(),
    {
        let mut instance = inst_new();
        let mut literals: Vec<Vec<Vec<usize>>> = Vec::new();
        let mut r: usize = 0;
        while r < 9
            invariant
                r <= 9,
                literals@.len() == r,
                instance_n_vars(instance) == 81 * r,
                instance_clauses(instance) == Seq::<Seq<int>>::empty(),
                forall|r2: int| 0 <= r2 < r ==> (#[trigger] literals@[r2])@.len() == 9,
                forall|r2: int, c2: int|
                    0 <= r2 < r && 0 <= c2 < 9 ==> (#[trigger] literals@[r2]@[c2])@.len() == 9,
                forall|r2: int, c2: int, k2: int|
                    0 <= r2 < r && 0 <= c2 < 9 && 0 <= k2 < 9 ==> (
                    #[trigger] literals@[r2]@[c2]@[k2]) as int == var_of(r2, c2, k2 + 1),
            decreases 9 - r,
        {
            let mut rowv: Vec<Vec<usize>> = Vec::new();
            let mut c: usize = 0;
            while c < 9
                invariant
                    r < 9,
                    c <= 9,
                    rowv@.len() == c,
                    instance_n_vars(instance) == 81 * r + 9 * c,
                    instance_clauses(instance) == Seq::<Seq<int>>::empty(),
                    forall|c2: int| 0 <= c2 < c ==> (#[trigger] rowv@[c2])@.len() == 9,
                    forall|c2: int, k2: int|
                        0 <= c2 < c && 0 <= k2 < 9 ==> (#[trigger] rowv@[c2]@[k2]) as int == var_of(
                            r as int,
                            c2,
                            k2 + 1,
                        ),
                decreases 9 - c,
            {
                let mut cellv: Vec<usize> = Vec::new();
                let mut k: usize = 0;
                while k < 9
                    invariant
                        r < 9,
                        c < 9,
                        k <= 9,
                        cellv@.len() == k,
                        instance_n_vars(instance) == 81 * r + 9 * c + k,
                        instance_clauses(instance) == Seq::<Seq<int>>::empty(),
                        forall|k2: int|
                            0 <= k2 < k ==> (#[trigger] cellv@[k2]) as int == var_of(
                                r as int,
                                c as int,
                                k2 + 1,
                            ),
                    decreases 9 - k,
                {
                    let v = inst_new_var(&mut instance);
                    cellv.push(v);
                    k += 1;
                }
                rowv.push(cellv);
                c += 1;
            }
            literals.push(rowv);
            r += 1;
        }
        SudokuSat { instance, literals }
    }

    /// The variable the map assigns to "cell (row, col) holds digit".
    pub fn lit_var(&self, row: usize, col: usize, digit: usize) -> (v: usize)
        requires
            self.wf(),
            row < 9,
            col < 9,
            1 <= digit <= 9,
        ensures
            v as int == var_of(row as int, col as int, digit as int),
    {
        self.literals[row][col][digit - 1]
    }

    /// How many clauses the instance holds so far.
    pub fn n_clauses(&self) -> (n: usize)
        ensures
            n as int == instance_clauses(self.instance).len(),
    {
        inst_n_clauses(&self.instance)
    }
}

/// Pin one cell to one digit: the clue's unit clause.
pub fn set_cell(sudoku: &mut SudokuSat, row: usize, col: usize, digit: usize)
    requires
        old(sudoku).wf(),
        row < 9,
        col < 9,
        1 <= digit <= 9,
    ensures
        final(sudoku).wf(),
        instance_clauses(final(sudoku).instance) == instance_clauses(old(sudoku).instance).push(
            unit_clause(var_of(row as int, col as int, digit as int)),
        ),
        final(sudoku).literals == old(sudoku).literals,
{
    let v = sudoku.literals[row][col][digit - 1];
    inst_add_unit(&mut sudoku.instance, v);
}

/// Emit a unit clause for every nonzero entry of the puzzle: exactly one
/// clause per clue, nothing for an empty cell.
pub fn add_puzzle_clues(sudoku: &mut SudokuSat, clue: &Grid)
    requires
        old(sudoku).wf(),
        grid_wf(gv(*clue)),
    ensures
        final(sudoku).wf(),
        clause_prefix(
            instance_clauses(old(sudoku).instance),
            instance_clauses(final(sudoku).instance),
        ),
        instance_clauses(final(sudoku).instance).len() == instance_clauses(
            old(sudoku).instance,
        ).len() + 81 - count_zeros(gv(*clue)),
        instance_clauses(final(sudoku).instance) == instance_clauses(old(sudoku).instance)
            + clue_units(gv(*clue)),
        final(sudoku).literals == old(sudoku).literals,
        covers_clues(instance_clauses(final(sudoku).instance), gv(*clue)),
        forall|s: Seq<Seq<usize>>|
            #[trigger] is_completion(gv(*clue), s) && all_sat(
                sol_set(s),
                instance_clauses(old(sudoku).instance),
            ) ==> all_sat(sol_set(s), instance_clauses(final(sudoku).instance)),
{
    let ghost p = gv(*clue);
    let ghost cls0 = instance_clauses(old(sudoku).instance);
    proof {
        assert(cls0 + clue_units_up_to(p, 0) =~= cls0);
    }
    let mut row: usize = 0;
    while row < 9
        invariant
            row <= 9,
            sudoku.wf(),
            p == gv(*clue),
            grid_wf(p),
            cls0 == instance_clauses(old(sudoku).instance),
            clause_prefix(cls0, instance_clauses(sudoku.instance)),
            instance_clauses(sudoku.instance).len() == cls0.len() + 9 * row - zeros_up_to(
                p,
                row as int,
            ),
            instance_clauses(sudoku.instance) == cls0 + clue_units_up_to(p, row as int),
            sudoku.literals == old(sudoku).literals,
            forall|r2: int, c2: int|
                0 <= r2 < row && 0 <= c2 < 9 && #[trigger] p[r2][c2] != 0 ==> has_clause(
                    instance_clauses(sudoku.instance),
                    unit_clause(var_of(r2, c2, p[r2][c2] as int)),
                ),
            forall|s: Seq<Seq<usize>>|
                #[trigger] is_completion(p, s) && all_sat(sol_set(s), cls0) ==> all_sat(
                    sol_set(s),
                    instance_clauses(sudoku.instance),
                ),
        decreases 9 - row,
    {
        proof {
            assert(cls0 + clue_units_up_to(p, row as int) + clue_units_in_row(p, row as int, 0)
                =~= cls0 + clue_units_up_to(p, row as int));
        }
        let mut col: usize = 0;
        while col < 9
            invariant
                row < 9,
                col <= 9,
                sudoku.wf(),
                p == gv(*clue),
                grid_wf(p),
                cls0 == instance_clauses(old(sudoku).instance),
                clause_prefix(cls0, instance_clauses(sudoku.instance)),
                instance_clauses(sudoku.instance).len() == cls0.len() + 9 * row + col
                    - zeros_up_to(p, row as int) - zeros_in_row(p[row as int], col as int),
                instance_clauses(sudoku.instance) == cls0 + clue_units_up_to(p, row as int)
                    + clue_units_in_row(p, row as int, col as int),
                sudoku.literals == old(sudoku).literals,
                forall|r2: int, c2: int|
                    0 <= r2 < row && 0 <= c2 < 9 && #[trigger] p[r2][c2] != 0 ==> has_clause(
                        instance_clauses(sudoku.instance),
                        unit_clause(var_of(r2, c2, p[r2][c2] as int)),
                    ),
                forall|c2: int|
                    0 <= c2 < col && #[trigger] p[row as int][c2] != 0 ==> has_clause(
                        instance_clauses(sudoku.instance),
                        unit_clause(var_of(row as int, c2, p[row as int][c2] as int)),
                    ),
                forall|s: Seq<Seq<usize>>|
                    #[trigger] is_completion(p, s) && all_sat(sol_set(s), cls0) ==> all_sat(
                        sol_set(s),
                        instance_clauses(sudoku.instance),
                    ),
            decreases 9 - col,
        {
            let ghost before = instance_clauses(sudoku.instance);
            let digit = clue[row][col];
            if digit != 0 {
                assert(digit == p[row as int][col as int]);
                assert(1 <= digit <= 9);
                set_cell(sudoku, row, col, digit);
                proof {
                    let cl = unit_clause(var_of(row as int, col as int, digit as int));
                    lemma_clause_prefix_push(before, cl);
                    lemma_clause_prefix_trans(cls0, before, instance_clauses(sudoku.instance));
                    assert(instance_clauses(sudoku.instance)[before.len() as int] == cl);
                    assert forall|r2: int, c2: int|
                        0 <= r2 < 9 && 0 <= c2 < 9 && #[trigger] p[r2][c2] != 0 && has_clause(
                            before,
                            unit_clause(var_of(r2, c2, p[r2][c2] as int)),
                        ) implies has_clause(
                        instance_clauses(sudoku.instance),
                        unit_clause(var_of(r2, c2, p[r2][c2] as int)),
                    ) by {
                        lemma_has_clause_prefix(
                            before,
                            instance_clauses(sudoku.instance),
                            unit_clause(var_of(r2, c2, p[r2][c2] as int)),
                        );
                    }
                    assert forall|s: Seq<Seq<usize>>|
                        #[trigger] is_completion(p, s) && all_sat(sol_set(s), cls0)
                            implies all_sat(sol_set(s), instance_clauses(sudoku.instance)) by {
                        lemma_completion_sat_unit(p, s, row as int, col as int);
                        lemma_all_sat_push(sol_set(s), before, cl);
                    }
                    assert(clue_units_in_row(p, row as int, col as int + 1)
                        == clue_units_in_row(p, row as int, col as int) + seq![cl]);
                    assert(instance_clauses(sudoku.instance) =~= cls0 + clue_units_up_to(
                        p,
                        row as int,
                    ) + clue_units_in_row(p, row as int, col as int + 1));
                }
            } else {
                proof {
                    assert(clue_units_in_row(p, row as int, col as int + 1) =~= clue_units_in_row(
                        p,
                        row as int,
                        col as int,
                    ));
                }
            }
            col += 1;
        }
        proof {
            assert(clue_units_up_to(p, row as int + 1) == clue_units_up_to(p, row as int)
                + clue_units_in_row(p, row as int, 9));
            assert(cls0 + clue_units_up_to(p, row as int) + clue_units_in_row(p, row as int, 9)
                =~= cls0 + clue_units_up_to(p, row as int + 1));
        }
        row += 1;
    }
}

/// Emit the 81 definedness clauses: each cell holds at least one digit.
fn add_cell_clauses(sudoku: &mut SudokuSat)
    requires
        old(sudoku).wf(),
    ensures
        final(sudoku).wf(),
        clause_prefix(
            instance_clauses(old(sudoku).instance),
            instance_clauses(final(sudoku).instance),
        ),
        instance_clauses(final(sudoku).instance).len() == instance_clauses(
            old(sudoku).instance,
        ).len() + 81,
        rules_only_appended(
            instance_clauses(old(sudoku).instance),
            instance_clauses(final(sudoku).instance),
        ),
        covers_cells(instance_clauses(final(sudoku).instance)),
        forall|s: Seq<Seq<usize>>|
            #[trigger] complete(s) && all_sat(sol_set(s), instance_clauses(old(sudoku).instance))
                ==> all_sat(sol_set(s), instance_clauses(final(sudoku).instance)),
{
    let ghost cls0 = instance_clauses(old(sudoku).instance);
    let mut row: usize = 0;
    while row < 9
        invariant
            row <= 9,
            sudoku.wf(),
            cls0 == instance_clauses(old(sudoku).instance),
            clause_prefix(cls0, instance_clauses(sudoku.instance)),
            instance_clauses(sudoku.instance).len() == cls0.len() + 9 * row,
            rules_only_appended(cls0, instance_clauses(sudoku.instance)),
            forall|r2: int, c2: int|
                0 <= r2 < row && 0 <= c2 < 9 ==> has_clause(
                    instance_clauses(sudoku.instance),
                    #[trigger] cell_clause(r2, c2),
                ),
            forall|s: Seq<Seq<usize>>|
                #[trigger] complete(s) && all_sat(sol_set(s), cls0) ==> all_sat(
                    sol_set(s),
                    instance_clauses(sudoku.instance),
                ),
        decreases 9 - row,
    {
        let mut col: usize = 0;
        while col < 9
            invariant
                row < 9,
                col <= 9,
                sudoku.wf(),
                cls0 == instance_clauses(old(sudoku).instance),
                clause_prefix(cls0, instance_clauses(sudoku.instance)),
                instance_clauses(sudoku.instance).len() == cls0.len() + 9 * row + col,
                rules_only_appended(cls0, instance_clauses(sudoku.instance)),
                forall|r2: int, c2: int|
                    0 <= r2 < row && 0 <= c2 < 9 ==> has_clause(
                        instance_clauses(sudoku.instance),
                        #[trigger] cell_clause(r2, c2),
                    ),
                forall|c2: int|
                    0 <= c2 < col ==> has_clause(
                        instance_clauses(sudoku.instance),
                        #[trigger] cell_clause(row as int, c2),
                    ),
                forall|s: Seq<Seq<usize>>|
                    #[trigger] complete(s) && all_sat(sol_set(s), cls0) ==> all_sat(
                        sol_set(s),
                        instance_clauses(sudoku.instance),
                    ),
            decreases 9 - col,
        {
            let ghost before = instance_clauses(sudoku.instance);
            let mut vs: Vec<usize> = Vec::new();
            let mut k: usize = 0;
            while k < 9
                invariant
                    row < 9,
                    col < 9,
                    k <= 9,
                    sudoku.wf(),
                    vs@.len() == k,
                    instance_clauses(sudoku.instance) == before,
                    forall|k2: int|
                        0 <= k2 < k ==> (#[trigger] vs@[k2]) as int == var_of(
                            row as int,
                            col as int,
                            k2 + 1,
                        ),
                decreases 9 - k,
            {
                let v = sudoku.literals[row][col][k];
                vs.push(v);
                k += 1;
            }
            inst_add_clause_pos(&mut sudoku.instance, &vs);
            proof {
                let cl = Seq::new(vs@.len(), |i: int| pos_lit(vs@[i] as int));
                assert(cl =~= cell_clause(row as int, col as int));
                lemma_clause_prefix_push(before, cell_clause(row as int, col as int));
                lemma_clause_prefix_trans(cls0, before, instance_clauses(sudoku.instance));
                lemma_has_clauses_mono(before, instance_clauses(sudoku.instance));
                assert(instance_clauses(sudoku.instance)[before.len() as int] == cell_clause(
                    row as int,
                    col as int,
                ));
                assert(is_rule_clause(cell_clause(row as int, col as int)));
                assert forall|i: int|
                    cls0.len() <= i < instance_clauses(sudoku.instance).len()
                        implies is_rule_clause(
                    #[trigger] instance_clauses(sudoku.instance)[i],
                ) by {
                    if i < before.len() {
                        assert(instance_clauses(sudoku.instance)[i] == before[i]);
                    } else {
                        assert(instance_clauses(sudoku.instance)[i] == cell_clause(
                            row as int,
                            col as int,
                        ));
                    }
                }
                assert forall|s: Seq<Seq<usize>>|
                    #[trigger] complete(s) && all_sat(sol_set(s), cls0) implies all_sat(
                    sol_set(s),
                    instance_clauses(sudoku.instance),
                ) by {
                    lemma_complete_sat_cell(s, row as int, col as int);
                    lemma_all_sat_push(sol_set(s), before, cell_clause(row as int, col as int));
                }
            }
            col += 1;
        }
        row += 1;
    }
}

/// The step of the triangular pair count: finishing first index `c1` leaves
/// the tally at the next triangular value.
proof fn lemma_pairs_step(c1: int, x: int)
    requires
        0 <= c1 < 9,
        2 * x == c1 * (17 - c1) + 2 * (9 - c1 - 1),
    ensures
        2 * x == (c1 + 1) * (17 - (c1 + 1)),
{
    assert(2 * x == (c1 + 1) * (17 - (c1 + 1))) by (nonlinear_arith)
        requires
            2 * x == c1 * (17 - c1) + 2 * (9 - c1 - 1),
    ;
}

/// Emit the 2916 row-uniqueness clauses: no digit twice in one row.
fn add_row_clauses(sudoku: &mut SudokuSat)
    requires
        old(sudoku).wf(),
    ensures
        final(sudoku).wf(),
        clause_prefix(
            instance_clauses(old(sudoku).instance),
            instance_clauses(final(sudoku).instance),
        ),
        instance_clauses(final(sudoku).instance).len() == instance_clauses(
            old(sudoku).instance,
        ).len() + 2916,
        rules_only_appended(
            instance_clauses(old(sudoku).instance),
            instance_clauses(final(sudoku).instance),
        ),
        covers_row_pairs(instance_clauses(final(sudoku).instance)),
        forall|s: Seq<Seq<usize>>|
            #[trigger] complete(s) && all_sat(sol_set(s), instance_clauses(old(sudoku).instance))
                ==> all_sat(sol_set(s), instance_clauses(final(sudoku).instance)),
{
    let ghost cls0 = instance_clauses(old(sudoku).instance);
    let mut row: usize = 0;
    while row < 9
        invariant
            row <= 9,
            sudoku.wf(),
            cls0 == instance_clauses(old(sudoku).instance),
            clause_prefix(cls0, instance_clauses(sudoku.instance)),
            instance_clauses(sudoku.instance).len() == cls0.len() + 324 * row,
            rules_only_appended(cls0, instance_clauses(sudoku.instance)),
            forall|r2: int, ca: int, cb: int, db: int|
                0 <= r2 < row && 0 <= ca < cb < 9 && 1 <= db <= 9 ==> has_clause(
                    instance_clauses(sudoku.instance),
                    #[trigger] pair_clause(var_of(r2, ca, db), var_of(r2, cb, db)),
                ),
            forall|s: Seq<Seq<usize>>|
                #[trigger] complete(s) && all_sat(sol_set(s), cls0) ==> all_sat(
                    sol_set(s),
                    instance_clauses(sudoku.instance),
                ),
        decreases 9 - row,
    {
        let mut digit: usize = 1;
        while digit <= 9
            invariant
                row < 9,
                1 <= digit <= 10,
                sudoku.wf(),
                cls0 == instance_clauses(old(sudoku).instance),
                clause_prefix(cls0, instance_clauses(sudoku.instance)),
                instance_clauses(sudoku.instance).len() == cls0.len() + 324 * row + 36 * (digit
                    - 1),
                rules_only_appended(cls0, instance_clauses(sudoku.instance)),
                forall|r2: int, ca: int, cb: int, db: int|
                    0 <= r2 < 9 && 0 <= ca < cb < 9 && 1 <= db <= 9 && (r2 < row || (r2 == row
                        && db < digit)) ==> has_clause(
                        instance_clauses(sudoku.instance),
                        #[trigger] pair_clause(var_of(r2, ca, db), var_of(r2, cb, db)),
                    ),
                forall|s: Seq<Seq<usize>>|
                    #[trigger] complete(s) && all_sat(sol_set(s), cls0) ==> all_sat(
                        sol_set(s),
                        instance_clauses(sudoku.instance),
                    ),
            decreases 10 - digit,
        {
            let ghost base = instance_clauses(sudoku.instance);
            let mut c1: usize = 0;
            while c1 < 9
                invariant
                    row < 9,
                    1 <= digit <= 9,
                    c1 <= 9,
                    sudoku.wf(),
                    cls0 == instance_clauses(old(sudoku).instance),
                    base.len() == cls0.len() + 324 * row + 36 * (digit - 1),
                    clause_prefix(cls0, instance_clauses(sudoku.instance)),
                    2 * (instance_clauses(sudoku.instance).len() - base.len()) == c1 * (17 - c1),
                    rules_only_appended(cls0, instance_clauses(sudoku.instance)),
                    forall|r2: int, ca: int, cb: int, db: int|
                        0 <= r2 < 9 && 0 <= ca < cb < 9 && 1 <= db <= 9 && (r2 < row || (r2 == row
                            && db < digit) || (r2 == row && db == digit && ca < c1)) ==> has_clause(
                            instance_clauses(sudoku.instance),
                            #[trigger] pair_clause(var_of(r2, ca, db), var_of(r2, cb, db)),
                        ),
                    forall|s: Seq<Seq<usize>>|
                        #[trigger] complete(s) && all_sat(sol_set(s), cls0) ==> all_sat(
                            sol_set(s),
                            instance_clauses(sudoku.instance),
                        ),
                decreases 9 - c1,
            {
                let mut c2: usize = c1 + 1;
                while c2 < 9
                    invariant
                        row < 9,
                        1 <= digit <= 9,
                        c1 < 9,
                        c1 + 1 <= c2 <= 9,
                        sudoku.wf(),
                        cls0 == instance_clauses(old(sudoku).instance),
                        clause_prefix(cls0, instance_clauses(sudoku.instance)),
                        2 * (instance_clauses(sudoku.instance).len() - base.len()) == c1 * (17
                            - c1) + 2 * (c2 - c1 - 1),
                        rules_only_appended(cls0, instance_clauses(sudoku.instance)),
                        forall|r2: int, ca: int, cb: int, db: int|
                            0 <= r2 < 9 && 0 <= ca < cb < 9 && 1 <= db <= 9 && (r2 < row || (r2
                                == row && db < digit) || (r2 == row && db == digit && ca < c1) || (
                            r2 == row && db == digit && ca == c1 && cb < c2)) ==> has_clause(
                                instance_clauses(sudoku.instance),
                                #[trigger] pair_clause(var_of(r2, ca, db), var_of(r2, cb, db)),
                            ),
                        forall|s: Seq<Seq<usize>>|
                            #[trigger] complete(s) && all_sat(sol_set(s), cls0) ==> all_sat(
                                sol_set(s),
                                instance_clauses(sudoku.instance),
                            ),
                    decreases 9 - c2,
                {
                    let v1 = sudoku.literals[row][c1][digit - 1];
                    let v2 = sudoku.literals[row][c2][digit - 1];
                    let ghost before = instance_clauses(sudoku.instance);
                    inst_add_pair_neg(&mut sudoku.instance, v1, v2);
                    proof {
                        let cl = pair_clause(
                            var_of(row as int, c1 as int, digit as int),
                            var_of(row as int, c2 as int, digit as int),
                        );
                        assert(instance_clauses(sudoku.instance) == before.push(cl));
                        lemma_clause_prefix_push(before, cl);
                        lemma_clause_prefix_trans(
                            cls0,
                            before,
                            instance_clauses(sudoku.instance),
                        );
                        lemma_has_clauses_mono(before, instance_clauses(sudoku.instance));
                        assert(instance_clauses(sudoku.instance)[before.len() as int] == cl);
                        assert(same_unit(row as int, c1 as int, row as int, c2 as int));
                        assert(is_rule_clause(cl));
                        assert forall|i: int|
                            cls0.len() <= i < instance_clauses(sudoku.instance).len()
                                implies is_rule_clause(
                            #[trigger] instance_clauses(sudoku.instance)[i],
                        ) by {
                            if i < before.len() {
                                assert(instance_clauses(sudoku.instance)[i] == before[i]);
                            } else {
                                assert(instance_clauses(sudoku.instance)[i] == cl);
                            }
                        }
                        assert forall|s: Seq<Seq<usize>>|
                            #[trigger] complete(s) && all_sat(sol_set(s), cls0) implies all_sat(
                            sol_set(s),
                            instance_clauses(sudoku.instance),
                        ) by {
                            lemma_complete_sat_pair(
                                s,
                                row as int,
                                c1 as int,
                                row as int,
                                c2 as int,
                                digit as int,
                            );
                            lemma_all_sat_push(sol_set(s), before, cl);
                        }
                    }
                    c2 += 1;
                }
                proof {
                    lemma_pairs_step(
                        c1 as int,
                        instance_clauses(sudoku.instance).len() - base.len(),
                    );
                }
                c1 += 1;
            }
            digit += 1;
        }
        row += 1;
    }
}

/// Emit the 2916 column-uniqueness clauses: no digit twice in one column.
fn add_col_clauses(sudoku: &mut SudokuSat)
    requires
        old(sudoku).wf(),
    ensures
        final(sudoku).wf(),
        clause_prefix(
            instance_clauses(old(sudoku).instance),
            instance_clauses(final(sudoku).instance),
        ),
        instance_clauses(final(sudoku).instance).len() == instance_clauses(
            old(sudoku).instance,
        ).len() + 2916,
        rules_only_appended(
            instance_clauses(old(sudoku).instance),
            instance_clauses(final(sudoku).instance),
        ),
        covers_col_pairs(instance_clauses(final(sudoku).instance)),
        forall|s: Seq<Seq<usize>>|
            #[trigger] complete(s) && all_sat(sol_set(s), instance_clauses(old(sudoku).instance))
                ==> all_sat(sol_set(s), instance_clauses(final(sudoku).instance)),
{
    let ghost cls0 = instance_clauses(old(sudoku).instance);
    let mut col: usize = 0;
    while col < 9
        invariant
            col <= 9,
            sudoku.wf(),
            cls0 == instance_clauses(old(sudoku).instance),
            clause_prefix(cls0, instance_clauses(sudoku.instance)),
            instance_clauses(sudoku.instance).len() == cls0.len() + 324 * col,
            rules_only_appended(cls0, instance_clauses(sudoku.instance)),
            forall|c2: int, ra: int, rb: int, db: int|
                0 <= c2 < col && 0 <= ra < rb < 9 && 1 <= db <= 9 ==> has_clause(
                    instance_clauses(sudoku.instance),
                    #[trigger] pair_clause(var_of(ra, c2, db), var_of(rb, c2, db)),
                ),
            forall|s: Seq<Seq<usize>>|
                #[trigger] complete(s) && all_sat(sol_set(s), cls0) ==> all_sat(
                    sol_set(s),
                    instance_clauses(sudoku.instance),
                ),
        decreases 9 - col,
    {
        let mut digit: usize = 1;
        while digit <= 9
            invariant
                col < 9,
                1 <= digit <= 10,
                sudoku.wf(),
                cls0 == instance_clauses(old(sudoku).instance),
                clause_prefix(cls0, instance_clauses(sudoku.instance)),
                instance_clauses(sudoku.instance).len() == cls0.len() + 324 * col + 36 * (digit
                    - 1),
                rules_only_appended(cls0, instance_clauses(sudoku.instance)),
                forall|c2: int, ra: int, rb: int, db: int|
                    0 <= c2 < 9 && 0 <= ra < rb < 9 && 1 <= db <= 9 && (c2 < col || (c2 == col
                        && db < digit)) ==> has_clause(
                        instance_clauses(sudoku.instance),
                        #[trigger] pair_clause(var_of(ra, c2, db), var_of(rb, c2, db)),
                    ),
                forall|s: Seq<Seq<usize>>|
                    #[trigger] complete(s) && all_sat(sol_set(s), cls0) ==> all_sat(
                        sol_set(s),
                        instance_clauses(sudoku.instance),
                    ),
            decreases 10 - digit,
        {
            let ghost base = instance_clauses(sudoku.instance);
            let mut r1: usize = 0;
            while r1 < 9
                invariant
                    col < 9,
                    1 <= digit <= 9,
                    r1 <= 9,
                    sudoku.wf(),
                    cls0 == instance_clauses(old(sudoku).instance),
                    base.len() == cls0.len() + 324 * col + 36 * (digit - 1),
                    clause_prefix(cls0, instance_clauses(sudoku.instance)),
                    2 * (instance_clauses(sudoku.instance).len() - base.len()) == r1 * (17 - r1),
                    rules_only_appended(cls0, instance_clauses(sudoku.instance)),
                    forall|c2: int, ra: int, rb: int, db: int|
                        0 <= c2 < 9 && 0 <= ra < rb < 9 && 1 <= db <= 9 && (c2 < col || (c2 == col
                            && db < digit) || (c2 == col && db == digit && ra < r1)) ==> has_clause(
                            instance_clauses(sudoku.instance),
                            #[trigger] pair_clause(var_of(ra, c2, db), var_of(rb, c2, db)),
                        ),
                    forall|s: Seq<Seq<usize>>|
                        #[trigger] complete(s) && all_sat(sol_set(s), cls0) ==> all_sat(
                            sol_set(s),
                            instance_clauses(sudoku.instance),
                        ),
                decreases 9 - r1,
            {
                let mut r2: usize = r1 + 1;
                while r2 < 9
                    invariant
                        col < 9,
                        1 <= digit <= 9,
                        r1 < 9,
                        r1 + 1 <= r2 <= 9,
                        sudoku.wf(),
                        cls0 == instance_clauses(old(sudoku).instance),
                        clause_prefix(cls0, instance_clauses(sudoku.instance)),
                        2 * (instance_clauses(sudoku.instance).len() - base.len()) == r1 * (17
                            - r1) + 2 * (r2 - r1 - 1),
                        rules_only_appended(cls0, instance_clauses(sudoku.instance)),
                        forall|c2: int, ra: int, rb: int, db: int|
                            0 <= c2 < 9 && 0 <= ra < rb < 9 && 1 <= db <= 9 && (c2 < col || (c2
                                == col && db < digit) || (c2 == col && db == digit && ra < r1) || (
                            c2 == col && db == digit && ra == r1 && rb < r2)) ==> has_clause(
                                instance_clauses(sudoku.instance),
                                #[trigger] pair_clause(var_of(ra, c2, db), var_of(rb, c2, db)),
                            ),
                        forall|s: Seq<Seq<usize>>|
                            #[trigger] complete(s) && all_sat(sol_set(s), cls0) ==> all_sat(
                                sol_set(s),
                                instance_clauses(sudoku.instance),
                            ),
                    decreases 9 - r2,
                {
                    let v1 = sudoku.literals[r1][col][digit - 1];
                    let v2 = sudoku.literals[r2][col][digit - 1];
                    let ghost before = instance_clauses(sudoku.instance);
                    inst_add_pair_neg(&mut sudoku.instance, v1, v2);
                    proof {
                        let cl = pair_clause(
                            var_of(r1 as int, col as int, digit as int),
                            var_of(r2 as int, col as int, digit as int),
                        );
                        assert(instance_clauses(sudoku.instance) == before.push(cl));
                        lemma_clause_prefix_push(before, cl);
                        lemma_clause_prefix_trans(
                            cls0,
                            before,
                            instance_clauses(sudoku.instance),
                        );
                        lemma_has_clauses_mono(before, instance_clauses(sudoku.instance));
                        assert(instance_clauses(sudoku.instance)[before.len() as int] == cl);
                        assert(same_unit(r1 as int, col as int, r2 as int, col as int));
                        assert(is_rule_clause(cl));
                        assert forall|i: int|
                            cls0.len() <= i < instance_clauses(sudoku.instance).len()
                                implies is_rule_clause(
                            #[trigger] instance_clauses(sudoku.instance)[i],
                        ) by {
                            if i < before.len() {
                                assert(instance_clauses(sudoku.instance)[i] == before[i]);
                            } else {
                                assert(instance_clauses(sudoku.instance)[i] == cl);
                            }
                        }
                        assert forall|s: Seq<Seq<usize>>|
                            #[trigger] complete(s) && all_sat(sol_set(s), cls0) implies all_sat(
                            sol_set(s),
                            instance_clauses(sudoku.instance),
                        ) by {
                            lemma_complete_sat_pair(
                                s,
                                r1 as int,
                                col as int,
                                r2 as int,
                                col as int,
                                digit as int,
                            );
                            lemma_all_sat_push(sol_set(s), before, cl);
                        }
                    }
                    r2 += 1;
                }
                proof {
                    lemma_pairs_step(
                        r1 as int,
                        instance_clauses(sudoku.instance).len() - base.len(),
                    );
                }
                r1 += 1;
            }
            digit += 1;
        }
        col += 1;
    }
}

/// Emit the 2916 box-uniqueness clauses: no digit twice in one 3x3 box. The
/// nine cells of a box are ranked in scan order; every ordered pair gets a
/// clause.
#[verifier::rlimit(60)]
fn add_box_clauses(sudoku: &mut SudokuSat)
    requires
        old(sudoku).wf(),
    ensures
        final(sudoku).wf(),
        clause_prefix(
            instance_clauses(old(sudoku).instance),
            instance_clauses(final(sudoku).instance),
        ),
        instance_clauses(final(sudoku).instance).len() == instance_clauses(
            old(sudoku).instance,
        ).len() + 2916,
        rules_only_appended(
            instance_clauses(old(sudoku).instance),
            instance_clauses(final(sudoku).instance),
        ),
        covers_box_pairs(instance_clauses(final(sudoku).instance)),
        forall|s: Seq<Seq<usize>>|
            #[trigger] complete(s) && all_sat(sol_set(s), instance_clauses(old(sudoku).instance))
                ==> all_sat(sol_set(s), instance_clauses(final(sudoku).instance)),
{
    let ghost cls0 = instance_clauses(old(sudoku).instance);
    let mut digit: usize = 1;
    while digit <= 9
        invariant
            1 <= digit <= 10,
            sudoku.wf(),
            cls0 == instance_clauses(old(sudoku).instance),
            clause_prefix(cls0, instance_clauses(sudoku.instance)),
            instance_clauses(sudoku.instance).len() == cls0.len() + 324 * (digit - 1),
            rules_only_appended(cls0, instance_clauses(sudoku.instance)),
            forall|ra: int, ca: int, rb: int, cb: int, db: int|
                0 <= ra < 9 && 0 <= ca < 9 && 0 <= rb < 9 && 0 <= cb < 9 && 1 <= db <= 9 && ra / 3
                    == rb / 3 && ca / 3 == cb / 3 && (ra < rb || (ra == rb && ca < cb)) && db
                    < digit ==> has_clause(
                    instance_clauses(sudoku.instance),
                    #[trigger] pair_clause(var_of(ra, ca, db), var_of(rb, cb, db)),
                ),
            forall|s: Seq<Seq<usize>>|
                #[trigger] complete(s) && all_sat(sol_set(s), cls0) ==> all_sat(
                    sol_set(s),
                    instance_clauses(sudoku.instance),
                ),
        decreases 10 - digit,
    {
        let mut box_row: usize = 0;
        while box_row < 3
            invariant
                1 <= digit <= 9,
                box_row <= 3,
                sudoku.wf(),
                cls0 == instance_clauses(old(sudoku).instance),
                clause_prefix(cls0, instance_clauses(sudoku.instance)),
                instance_clauses(sudoku.instance).len() == cls0.len() + 324 * (digit - 1) + 108
                    * box_row,
                rules_only_appended(cls0, instance_clauses(sudoku.instance)),
                forall|ra: int, ca: int, rb: int, cb: int, db: int|
                    0 <= ra < 9 && 0 <= ca < 9 && 0 <= rb < 9 && 0 <= cb < 9 && 1 <= db <= 9 && ra
                        / 3 == rb / 3 && ca / 3 == cb / 3 && (ra < rb || (ra == rb && ca < cb)) && (
                    db < digit || (db == digit && ra / 3 < box_row)) ==> has_clause(
                        instance_clauses(sudoku.instance),
                        #[trigger] pair_clause(var_of(ra, ca, db), var_of(rb, cb, db)),
                    ),
                forall|s: Seq<Seq<usize>>|
                    #[trigger] complete(s) && all_sat(sol_set(s), cls0) ==> all_sat(
                        sol_set(s),
                        instance_clauses(sudoku.instance),
                    ),
            decreases 3 - box_row,
        {
            let mut box_col: usize = 0;
            while box_col < 3
                invariant
                    1 <= digit <= 9,
                    box_row < 3,
                    box_col <= 3,
                    sudoku.wf(),
                    cls0 == instance_clauses(old(sudoku).instance),
                    clause_prefix(cls0, instance_clauses(sudoku.instance)),
                    instance_clauses(sudoku.instance).len() == cls0.len() + 324 * (digit - 1)
                        + 108 * box_row + 36 * box_col,
                    rules_only_appended(cls0, instance_clauses(sudoku.instance)),
                    forall|ra: int, ca: int, rb: int, cb: int, db: int|
                        0 <= ra < 9 && 0 <= ca < 9 && 0 <= rb < 9 && 0 <= cb < 9 && 1 <= db <= 9
                            && ra / 3 == rb / 3 && ca / 3 == cb / 3 && (ra < rb || (ra == rb && ca
                            < cb)) && (db < digit || (db == digit && ra / 3 < box_row) || (db
                            == digit && ra / 3 == box_row && ca / 3 < box_col)) ==> has_clause(
                            instance_clauses(sudoku.instance),
                            #[trigger] pair_clause(var_of(ra, ca, db), var_of(rb, cb, db)),
                        ),
                    forall|s: Seq<Seq<usize>>|
                        #[trigger] complete(s) && all_sat(sol_set(s), cls0) ==> all_sat(
                            sol_set(s),
                            instance_clauses(sudoku.instance),
                        ),
                decreases 3 - box_col,
            {
                let ghost base = instance_clauses(sudoku.instance);
                let mut i: usize = 0;
                while i < 9
                    invariant
                        1 <= digit <= 9,
                        box_row < 3,
                        box_col < 3,
                        i <= 9,
                        sudoku.wf(),
                        cls0 == instance_clauses(old(sudoku).instance),
                        base.len() == cls0.len() + 324 * (digit - 1) + 108 * box_row + 36
                            * box_col,
                        clause_prefix(cls0, instance_clauses(sudoku.instance)),
                        2 * (instance_clauses(sudoku.instance).len() - base.len()) == i * (17 - i),
                        rules_only_appended(cls0, instance_clauses(sudoku.instance)),
                        forall|ra: int, ca: int, rb: int, cb: int, db: int|
                            0 <= ra < 9 && 0 <= ca < 9 && 0 <= rb < 9 && 0 <= cb < 9 && 1 <= db
                                <= 9 && ra / 3 == rb / 3 && ca / 3 == cb / 3 && (ra < rb || (ra
                                == rb && ca < cb)) && (db < digit || (db == digit && ra / 3
                                < box_row) || (db == digit && ra / 3 == box_row && ca / 3
                                < box_col) || (db == digit && ra / 3 == box_row && ca / 3
                                == box_col && (ra % 3) * 3 + ca % 3 < i)) ==> has_clause(
                                instance_clauses(sudoku.instance),
                                #[trigger] pair_clause(var_of(ra, ca, db), var_of(rb, cb, db)),
                            ),
                        forall|s: Seq<Seq<usize>>|
                            #[trigger] complete(s) && all_sat(sol_set(s), cls0) ==> all_sat(
                                sol_set(s),
                                instance_clauses(sudoku.instance),
                            ),
                    decreases 9 - i,
                {
                    let mut j: usize = i + 1;
                    while j < 9
                        invariant
                            1 <= digit <= 9,
                            box_row < 3,
                            box_col < 3,
                            i < 9,
                            i + 1 <= j <= 9,
                            sudoku.wf(),
                            cls0 == instance_clauses(old(sudoku).instance),
                            clause_prefix(cls0, instance_clauses(sudoku.instance)),
                            2 * (instance_clauses(sudoku.instance).len() - base.len()) == i * (17
                                - i) + 2 * (j - i - 1),
                            rules_only_appended(cls0, instance_clauses(sudoku.instance)),
                            forall|ra: int, ca: int, rb: int, cb: int, db: int|
                                0 <= ra < 9 && 0 <= ca < 9 && 0 <= rb < 9 && 0 <= cb < 9 && 1 <= db
                                    <= 9 && ra / 3 == rb / 3 && ca / 3 == cb / 3 && (ra < rb || (ra
                                    == rb && ca < cb)) && (db < digit || (db == digit && ra / 3
                                    < box_row) || (db == digit && ra / 3 == box_row && ca / 3
                                    < box_col) || (db == digit && ra / 3 == box_row && ca / 3
                                    == box_col && (ra % 3) * 3 + ca % 3 < i) || (db == digit && ra
                                    / 3 == box_row && ca / 3 == box_col && (ra % 3) * 3 + ca % 3
                                    == i && (rb % 3) * 3 + cb % 3 < j)) ==> has_clause(
                                    instance_clauses(sudoku.instance),
                                    #[trigger] pair_clause(var_of(ra, ca, db), var_of(rb, cb, db)),
                                ),
                            forall|s: Seq<Seq<usize>>|
                                #[trigger] complete(s) && all_sat(sol_set(s), cls0) ==> all_sat(
                                    sol_set(s),
                                    instance_clauses(sudoku.instance),
                                ),
                        decreases 9 - j,
                    {
                        let r1 = box_row * 3 + i / 3;
                        let c1 = box_col * 3 + i % 3;
                        let r2 = box_row * 3 + j / 3;
                        let c2 = box_col * 3 + j % 3;
                        let v1 = sudoku.literals[r1][c1][digit - 1];
                        let v2 = sudoku.literals[r2][c2][digit - 1];
                        let ghost before = instance_clauses(sudoku.instance);
                        inst_add_pair_neg(&mut sudoku.instance, v1, v2);
                        proof {
                            let ri = r1 as int;
                            let ci = c1 as int;
                            let rj = r2 as int;
                            let cj = c2 as int;
                            let cl = pair_clause(
                                var_of(ri, ci, digit as int),
                                var_of(rj, cj, digit as int),
                            );
                            assert(instance_clauses(sudoku.instance) == before.push(cl));
                            lemma_clause_prefix_push(before, cl);
                            lemma_clause_prefix_trans(
                                cls0,
                                before,
                                instance_clauses(sudoku.instance),
                            );
                            lemma_has_clauses_mono(before, instance_clauses(sudoku.instance));
                            assert(instance_clauses(sudoku.instance)[before.len() as int] == cl);
                            assert(same_unit(ri, ci, rj, cj));
                            assert(is_rule_clause(cl));
                            assert forall|i: int|
                                cls0.len() <= i < instance_clauses(sudoku.instance).len()
                                    implies is_rule_clause(
                                #[trigger] instance_clauses(sudoku.instance)[i],
                            ) by {
                                if i < before.len() {
                                    assert(instance_clauses(sudoku.instance)[i] == before[i]);
                                } else {
                                    assert(instance_clauses(sudoku.instance)[i] == cl);
                                }
                            }
                            // the two cells, recovered from their scan ranks
                            assert(ri / 3 == box_row as int && ri % 3 == i as int / 3);
                            assert(ci / 3 == box_col as int && ci % 3 == i as int % 3);
                            assert(rj / 3 == box_row as int && rj % 3 == j as int / 3);
                            assert(cj / 3 == box_col as int && cj % 3 == j as int % 3);
                            assert((ri % 3) * 3 + ci % 3 == i as int);
                            assert((rj % 3) * 3 + cj % 3 == j as int);
                            assert(ri < rj || (ri == rj && ci < cj));
                            assert forall|s: Seq<Seq<usize>>|
                                #[trigger] complete(s) && all_sat(sol_set(s), cls0)
                                    implies all_sat(
                                sol_set(s),
                                instance_clauses(sudoku.instance),
                            ) by {
                                lemma_complete_sat_pair(s, ri, ci, rj, cj, digit as int);
                                lemma_all_sat_push(sol_set(s), before, cl);
                            }
                        }
                        j += 1;
                    }
                    proof {
                        lemma_pairs_step(
                            i as int,
                            instance_clauses(sudoku.instance).len() - base.len(),
                        );
                    }
                    i += 1;
                }
                box_col += 1;
            }
            box_row += 1;
        }
        digit += 1;
    }
}

/// Emit the whole minimal encoding: 81 definedness clauses and three families
/// of 2916 uniqueness clauses, 8829 clauses in all.
pub fn add_minimal_sudoku_constraints(sudoku: &mut SudokuSat)
    requires
        old(sudoku).wf(),
    ensures
        final(sudoku).wf(),
        clause_prefix(
            instance_clauses(old(sudoku).instance),
            instance_clauses(final(sudoku).instance),
        ),
        instance_clauses(final(sudoku).instance).len() == instance_clauses(
            old(sudoku).instance,
        ).len() + 8829,
        rules_only_appended(
            instance_clauses(old(sudoku).instance),
            instance_clauses(final(sudoku).instance),
        ),
        covers_rules(instance_clauses(final(sudoku).instance)),
        forall|s: Seq<Seq<usize>>|
            #[trigger] complete(s) && all_sat(sol_set(s), instance_clauses(old(sudoku).instance))
                ==> all_sat(sol_set(s), instance_clauses(final(sudoku).instance)),
{
    let ghost cls0 = instance_clauses(old(sudoku).instance);
    add_cell_clauses(sudoku);
    let ghost cls1 = instance_clauses(sudoku.instance);
    add_row_clauses(sudoku);
    let ghost cls2 = instance_clauses(sudoku.instance);
    add_col_clauses(sudoku);
    let ghost cls3 = instance_clauses(sudoku.instance);
    add_box_clauses(sudoku);
    let ghost cls4 = instance_clauses(sudoku.instance);
    proof {
        lemma_clause_prefix_trans(cls0, cls1, cls2);
        lemma_clause_prefix_trans(cls0, cls2, cls3);
        lemma_clause_prefix_trans(cls0, cls3, cls4);
        lemma_clause_prefix_trans(cls1, cls2, cls3);
        lemma_clause_prefix_trans(cls1, cls3, cls4);
        lemma_clause_prefix_trans(cls2, cls3, cls4);
        lemma_has_clauses_mono(cls1, cls4);
        lemma_has_clauses_mono(cls2, cls4);
        lemma_has_clauses_mono(cls3, cls4);
        assert forall|r: int, c: int| 0 <= r < 9 && 0 <= c < 9 implies has_clause(
            cls4,
            #[trigger] cell_clause(r, c),
        ) by {
            assert(has_clause(cls1, cell_clause(r, c)));
        }
        assert forall|r: int, ca: int, cb: int, d: int|
            0 <= r < 9 && 0 <= ca < cb < 9 && 1 <= d <= 9 implies has_clause(
            cls4,
            #[trigger] pair_clause(var_of(r, ca, d), var_of(r, cb, d)),
        ) by {
            assert(has_clause(cls2, pair_clause(var_of(r, ca, d), var_of(r, cb, d))));
        }
        assert forall|c: int, ra: int, rb: int, d: int|
            0 <= c < 9 && 0 <= ra < rb < 9 && 1 <= d <= 9 implies has_clause(
            cls4,
            #[trigger] pair_clause(var_of(ra, c, d), var_of(rb, c, d)),
        ) by {
            assert(has_clause(cls3, pair_clause(var_of(ra, c, d), var_of(rb, c, d))));
        }
        assert forall|s: Seq<Seq<usize>>|
            #[trigger] complete(s) && all_sat(sol_set(s), cls0) implies all_sat(
            sol_set(s),
            cls4,
        ) by {
            assert(all_sat(sol_set(s), cls1));
            assert(all_sat(sol_set(s), cls2));
            assert(all_sat(sol_set(s), cls3));
        }
        assert forall|i: int| cls0.len() <= i < cls4.len() implies is_rule_clause(
            #[trigger] cls4[i],
        ) by {
            if i < cls1.len() {
                assert(cls4[i] == cls1[i]);
                assert(is_rule_clause(cls1[i]));
            } else if i < cls2.len() {
                assert(cls4[i] == cls2[i]);
                assert(is_rule_clause(cls2[i]));
            } else if i < cls3.len() {
                assert(cls4[i] == cls3[i]);
                assert(is_rule_clause(cls3[i]));
            } else {
                assert(is_rule_clause(cls4[i]));
            }
        }
    }
}

/// The encoder's extension hook: room for redundant clauses that are logical
/// consequences of the minimal set, to speed the oracle up. The minimal set
/// is already sufficient, so none are added.
pub fn add_extended_sudoku_constraints(sudoku: &mut SudokuSat)
    requires
        old(sudoku).wf(),
    ensures
        *final(sudoku) == *old(sudoku),
{
}

/// Read a grid off a satisfying assignment: each cell takes the digit whose
/// variable the assignment makes true. A cell with no true digit or several
/// would betray a corrupted encoding and yields `None`.
pub fn extract_grid(sudoku: &SudokuSat, sol: &rustsat::types::Assignment) -> (res: Option<Grid>)
    requires
        sudoku.wf(),
    ensures
        (match res {
            Some(g) => decoded_matches(gv(g), assignment_true_vars(*sol)),
            None => exists|r: int, c: int|
                0 <= r < 9 && 0 <= c < 9 && !#[trigger] cell_exactly_one(
                    assignment_true_vars(*sol),
                    r,
                    c,
                ),
        }),
{
    let ghost t = assignment_true_vars(*sol);
    let mut grid: Grid = [[0; 9]; 9];
    let mut row: usize = 0;
    while row < 9
        invariant
            row <= 9,
            sudoku.wf(),
            t == assignment_true_vars(*sol),
            forall|r2: int, c2: int|
                0 <= r2 < row && 0 <= c2 < 9 ==> #[trigger] cell_decoded(gv(grid), t, r2, c2),
        decreases 9 - row,
    {
        let mut col: usize = 0;
        while col < 9
            invariant
                row < 9,
                col <= 9,
                sudoku.wf(),
                t == assignment_true_vars(*sol),
                forall|r2: int, c2: int|
                    0 <= r2 < row && 0 <= c2 < 9 ==> #[trigger] cell_decoded(gv(grid), t, r2, c2),
                forall|c2: int|
                    0 <= c2 < col ==> #[trigger] cell_decoded(gv(grid), t, row as int, c2),
            decreases 9 - col,
        {
            let mut count: usize = 0;
            let mut found: usize = 0;
            let mut digit: usize = 1;
            while digit <= 9
                invariant
                    row < 9,
                    col < 9,
                    1 <= digit <= 10,
                    sudoku.wf(),
                    t == assignment_true_vars(*sol),
                    count < digit,
                    count == 0 ==> found == 0 && (forall|d: int|
                        1 <= d < digit ==> !t.contains(
                            #[trigger] var_of(row as int, col as int, d),
                        )),
                    count == 1 ==> 1 <= found < digit && t.contains(
                        var_of(row as int, col as int, found as int),
                    ) && (forall|d: int|
                        1 <= d < digit && d != found as int ==> !t.contains(
                            #[trigger] var_of(row as int, col as int, d),
                        )),
                    count >= 2 ==> exists|da: int, db: int|
                        1 <= da < db < digit && t.contains(
                            #[trigger] var_of(row as int, col as int, da),
                        ) && t.contains(#[trigger] var_of(row as int, col as int, db)),
                decreases 10 - digit,
            {
                let v = sudoku.literals[row][col][digit - 1];
                if assignment_var_true(sol, v) {
                    count += 1;
                    found = digit;
                }
                digit += 1;
            }
            if count != 1 {
                proof {
                    let ri = row as int;
                    let ci = col as int;
                    if count == 0 {
                        if cell_exactly_one(t, ri, ci) {
                            let d = choose|d: int|
                                1 <= d <= 9 && t.contains(#[trigger] var_of(ri, ci, d));
                            assert(false);
                        }
                    } else {
                        let (da, db) = choose|da: int, db: int|
                            1 <= da < db < 10 && t.contains(#[trigger] var_of(ri, ci, da))
                                && t.contains(#[trigger] var_of(ri, ci, db));
                        if cell_exactly_one(t, ri, ci) {
                            let d = choose|d: int|
                                1 <= d <= 9 && t.contains(#[trigger] var_of(ri, ci, d)) && (
                                forall|d2: int|
                                    1 <= d2 <= 9 && t.contains(#[trigger] var_of(ri, ci, d2))
                                        ==> d2 == d);
                            assert(da == d && db == d);
                            assert(false);
                        }
                    }
                    assert(!cell_exactly_one(t, ri, ci));
                }
                return None;
            }
            let ghost g0 = gv(grid);
            let mut rowa: [usize; 9] = grid[row];
            rowa[col] = found;
            grid[row] = rowa;
            proof {
                assert(gv(grid) =~~= g0.update(row as int, g0[row as int].update(col as int, found)));
                assert(cell_decoded(gv(grid), t, row as int, col as int));
                assert forall|r2: int, c2: int|
                    0 <= r2 < row as int && 0 <= c2 < 9 implies #[trigger] cell_decoded(
                    gv(grid),
                    t,
                    r2,
                    c2,
                ) by {
                    assert(gv(grid)[r2][c2] == g0[r2][c2]);
                    assert(cell_decoded(g0, t, r2, c2));
                }
                assert forall|c2: int| 0 <= c2 < col as int implies #[trigger] cell_decoded(
                    gv(grid),
                    t,
                    row as int,
                    c2,
                ) by {
                    assert(gv(grid)[row as int][c2] == g0[row as int][c2]);
                    assert(cell_decoded(g0, t, row as int, c2));
                }
            }
            col += 1;
        }
        row += 1;
    }
    Some(grid)
}

/// The SAT-reduction strategy: encode the rules and clues, hand the clauses
/// to the oracle, decode its model.
#[derive(Default)]
pub struct SatSudokuSolver;

/// How one SAT-strategy solve ended: a decoded solution, the oracle's proof
/// that none exists, or an inconclusive session (an interrupted oracle, or a
/// model the decoder refused).
pub enum SatOutcome {
    Solution(Grid),
    NoSolution,
    Inconclusive,
}

impl SatSudokuSolver {
    /// One full solve with the verdict kept apart: `NoSolution` is the
    /// oracle's unsatisfiability verdict, which under this encoding proves
    /// the puzzle has no completion.
    pub fn solve_classified(puzzle: &Grid) -> (o: SatOutcome)
        requires
            grid_wf(gv(*puzzle)),
        ensures
            (match o {
                SatOutcome::Solution(g) => is_completion(gv(*puzzle), gv(g)),
                SatOutcome::NoSolution => forall|s: Seq<Seq<usize>>|
                    !#[trigger] is_completion(gv(*puzzle), s),
                SatOutcome::Inconclusive => true,
            }),
    {
        let ghost p = gv(*puzzle);
        let mut model = SudokuSat::new();
        add_minimal_sudoku_constraints(&mut model);
        let ghost cls_rules = instance_clauses(model.instance);
        add_puzzle_clues(&mut model, puzzle);
        let ghost cls = instance_clauses(model.instance);
        proof {
            lemma_covers_rules_prefix(cls_rules, cls);
            assert forall|s: Seq<Seq<usize>>| #[trigger] is_completion(p, s) implies all_sat(
                sol_set(s),
                cls,
            ) by {
                assert(all_sat(sol_set(s), Seq::<Seq<int>>::empty()));
                assert(complete(s));
                assert(all_sat(sol_set(s), cls_rules));
            }
        }
        let mut solver = oracle_new();
        if !oracle_load(&mut solver, &model.instance) {
            return SatOutcome::Inconclusive;
        }
        proof {
            assert(Seq::<Seq<int>>::empty() + cls =~= cls);
            assert(solver_clauses(solver) == cls);
        }
        match oracle_run(&mut solver) {
            Verdict::Sat => {
                match oracle_solution(&solver) {
                    Some(assignment) => {
                        match extract_grid(&model, &assignment) {
                            Some(g) => {
                                proof {
                                    lemma_decode_correct(
                                        cls,
                                        assignment_true_vars(assignment),
                                        p,
                                        gv(g),
                                    );
                                }
                                SatOutcome::Solution(g)
                            },
                            None => {
                                // the decoder cannot refuse a model of the
                                // rule clauses: each cell determines one digit
                                proof {
                                    let t = assignment_true_vars(assignment);
                                    let (rr, cc) = choose|rr: int, cc: int|
                                        0 <= rr < 9 && 0 <= cc < 9
                                            && !#[trigger] cell_exactly_one(t, rr, cc);
                                    lemma_model_determines_cell(cls, t, rr, cc);
                                    assert(false);
                                }
                                SatOutcome::Inconclusive
                            },
                        }
                    },
                    None => SatOutcome::Inconclusive,
                }
            },
            Verdict::Unsat => {
                proof {
                    assert forall|s: Seq<Seq<usize>>| !#[trigger] is_completion(p, s) by {
                        if is_completion(p, s) {
                            assert(all_sat(sol_set(s), cls));
                        }
                    }
                }
                SatOutcome::NoSolution
            },
            Verdict::Interrupted => SatOutcome::Inconclusive,
        }
    }
}

impl SudokuSolver for SatSudokuSolver {
    fn solve(&mut self, puzzle: &Grid) -> (r: Option<Grid>) {
        match SatSudokuSolver::solve_classified(puzzle) {
            SatOutcome::Solution(g) => Some(g),
            SatOutcome::NoSolution => None,
            SatOutcome::Inconclusive => None,
        }
    }
}

} // verus!
