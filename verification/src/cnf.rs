use vstd::prelude::*;
use vstd::set_lib::{set_int_range, lemma_int_range, lemma_map_size, lemma_subset_equality};
use vstd::relations::injective_on;
use crate::grid::{grid_wf, same_unit, consistent, complete, extends, is_completion, grid_shaped};

verus! {

/// Index of the propositional variable asserting "cell (r, c) holds digit d",
/// in the canonical row-major, digit-ascending layout of 729 variables.
pub open spec fn var_of(r: int, c: int, d: int) -> int {
    81 * r + 9 * c + (d - 1)
}

/// Signed literal (DIMACS style): variable `v` asserted.
pub open spec fn pos_lit(v: int) -> int {
    v + 1
}

/// Signed literal (DIMACS style): variable `v` denied.
pub open spec fn neg_lit(v: int) -> int {
    -(v + 1)
}

/// Truth of a signed literal under the set `t` of variables assigned true.
pub open spec fn lit_sat(t: Set<int>, l: int) -> bool {
    if l > 0 {
        t.contains(l - 1)
    } else {
        !t.contains(-l - 1)
    }
}

/// A clause holds when one of its literals does.
pub open spec fn clause_sat(t: Set<int>, cl: Seq<int>) -> bool {
    exists|i: int| 0 <= i < cl.len() && lit_sat(t, #[trigger] cl[i])
}

/// A clause list holds when every clause does.
pub open spec fn all_sat(t: Set<int>, cls: Seq<Seq<int>>) -> bool {
    forall|i: int| 0 <= i < cls.len() ==> clause_sat(t, #[trigger] cls[i])
}

/// The clause occurs in the list.
pub open spec fn has_clause(cls: Seq<Seq<int>>, cl: Seq<int>) -> bool {
    exists|i: int| 0 <= i < cls.len() && #[trigger] cls[i] == cl
}

/// Definedness clause of a cell: one of its nine digit variables is true.
pub open spec fn cell_clause(r: int, c: int) -> Seq<int> {
    Seq::new(9, |k: int| pos_lit(var_of(r, c, k + 1)))
}

/// Uniqueness clause of a pair of variables: not both true.
pub open spec fn pair_clause(v1: int, v2: int) -> Seq<int> {
    seq![neg_lit(v1), neg_lit(v2)]
}

/// Clue clause: the variable alone.
pub open spec fn unit_clause(v: int) -> Seq<int> {
    seq![pos_lit(v)]
}

/// The clue unit clauses of the first `n` cells of row `r`, in scan order:
/// one unit clause per nonzero entry, nothing for an empty cell.
pub open spec fn clue_units_in_row(p: Seq<Seq<usize>>, r: int, n: int) -> Seq<Seq<int>>
    decreases n,
{
    if n <= 0 {
        Seq::empty()
    } else {
        clue_units_in_row(p, r, n - 1) + if p[r][n - 1] != 0 {
            seq![unit_clause(var_of(r, n - 1, p[r][n - 1] as int))]
        } else {
            Seq::<Seq<int>>::empty()
        }
    }
}

/// The clue unit clauses of the first `k` rows, row-major.
pub open spec fn clue_units_up_to(p: Seq<Seq<usize>>, k: int) -> Seq<Seq<int>>
    decreases k,
{
    if k <= 0 {
        Seq::empty()
    } else {
        clue_units_up_to(p, k - 1) + clue_units_in_row(p, k - 1, 9)
    }
}

/// Every clue's unit clause, in row-major scan order.
pub open spec fn clue_units(p: Seq<Seq<usize>>) -> Seq<Seq<int>> {
    clue_units_up_to(p, 9)
}

/// The clause is one of the minimal rule clauses: a cell's definedness
/// clause, or the uniqueness clause of two distinct cells of one unit for
/// one digit.
pub open spec fn is_rule_clause(cl: Seq<int>) -> bool {
    (exists|r: int, c: int| 0 <= r < 9 && 0 <= c < 9 && cl == #[trigger] cell_clause(r, c))
        || (exists|r1: int, c1: int, r2: int, c2: int, d: int|
        0 <= r1 < 9 && 0 <= c1 < 9 && 0 <= r2 < 9 && 0 <= c2 < 9 && 1 <= d <= 9
            && !(r1 == r2 && c1 == c2) && same_unit(r1, c1, r2, c2) && cl == #[trigger] pair_clause(
            var_of(r1, c1, d),
            var_of(r2, c2, d),
        ))
}

/// Everything the list holds beyond the first `cls0.len()` entries is one of
/// the minimal rule clauses.
pub open spec fn rules_only_appended(cls0: Seq<Seq<int>>, cls: Seq<Seq<int>>) -> bool {
    forall|i: int| cls0.len() <= i < cls.len() ==> is_rule_clause(#[trigger] cls[i])
}

/// The variables a complete grid makes true: one per cell, for its digit.
pub open spec fn sol_set(s: Seq<Seq<usize>>) -> Set<int> {
    Set::new(
        |v: int|
            exists|r: int, c: int|
                0 <= r < 9 && 0 <= c < 9 && 1 <= s[r][c] <= 9 && v == #[trigger] var_of(
                    r,
                    c,
                    s[r][c] as int,
                ),
    )
}

/// `cls2` begins with all of `cls1`, in order.
pub open spec fn clause_prefix(cls1: Seq<Seq<int>>, cls2: Seq<Seq<int>>) -> bool {
    cls1.len() <= cls2.len() && (forall|i: int| 0 <= i < cls1.len() ==> #[trigger] cls2[i] == cls1[i])
}

pub proof fn lemma_clause_prefix_trans(cls1: Seq<Seq<int>>, cls2: Seq<Seq<int>>, cls3: Seq<Seq<int>>)
    requires
        clause_prefix(cls1, cls2),
        clause_prefix(cls2, cls3),
    ensures
        clause_prefix(cls1, cls3),
{
}

pub proof fn lemma_clause_prefix_push(cls: Seq<Seq<int>>, cl: Seq<int>)
    ensures
        clause_prefix(cls, cls.push(cl)),
{
}

/// A clause present in a prefix is present in the whole.
pub proof fn lemma_has_clause_prefix(cls1: Seq<Seq<int>>, cls2: Seq<Seq<int>>, cl: Seq<int>)
    requires
        clause_prefix(cls1, cls2),
        has_clause(cls1, cl),
    ensures
        has_clause(cls2, cl),
{
    let i = choose|i: int| 0 <= i < cls1.len() && #[trigger] cls1[i] == cl;
    assert(cls2[i] == cl);
}

/// Every clause present in a prefix is present in the whole.
pub proof fn lemma_has_clauses_mono(cls1: Seq<Seq<int>>, cls2: Seq<Seq<int>>)
    requires
        clause_prefix(cls1, cls2),
    ensures
        forall|cl: Seq<int>| #[trigger] has_clause(cls1, cl) ==> has_clause(cls2, cl),
{
    assert forall|cl: Seq<int>| #[trigger] has_clause(cls1, cl) implies has_clause(cls2, cl) by {
        lemma_has_clause_prefix(cls1, cls2, cl);
    }
}

/// Every cell's definedness clause is present.
pub open spec fn covers_cells(cls: Seq<Seq<int>>) -> bool {
    forall|r: int, c: int|
        0 <= r < 9 && 0 <= c < 9 ==> has_clause(cls, #[trigger] cell_clause(r, c))
}

/// Every row-uniqueness clause is present.
pub open spec fn covers_row_pairs(cls: Seq<Seq<int>>) -> bool {
    forall|r: int, c1: int, c2: int, d: int|
        0 <= r < 9 && 0 <= c1 < c2 < 9 && 1 <= d <= 9 ==> has_clause(
            cls,
            #[trigger] pair_clause(var_of(r, c1, d), var_of(r, c2, d)),
        )
}

/// Every column-uniqueness clause is present.
pub open spec fn covers_col_pairs(cls: Seq<Seq<int>>) -> bool {
    forall|c: int, r1: int, r2: int, d: int|
        0 <= c < 9 && 0 <= r1 < r2 < 9 && 1 <= d <= 9 ==> has_clause(
            cls,
            #[trigger] pair_clause(var_of(r1, c, d), var_of(r2, c, d)),
        )
}

/// Every box-uniqueness clause is present: for any two distinct cells of one
/// 3x3 box, the earlier one in scan order first.
pub open spec fn covers_box_pairs(cls: Seq<Seq<int>>) -> bool {
    forall|r1: int, c1: int, r2: int, c2: int, d: int|
        0 <= r1 < 9 && 0 <= c1 < 9 && 0 <= r2 < 9 && 0 <= c2 < 9 && 1 <= d <= 9
            && r1 / 3 == r2 / 3 && c1 / 3 == c2 / 3
            && (r1 < r2 || (r1 == r2 && c1 < c2)) ==> has_clause(
            cls,
            #[trigger] pair_clause(var_of(r1, c1, d), var_of(r2, c2, d)),
        )
}

/// The whole minimal rule set is present.
pub open spec fn covers_rules(cls: Seq<Seq<int>>) -> bool {
    covers_cells(cls) && covers_row_pairs(cls) && covers_col_pairs(cls) && covers_box_pairs(cls)
}

/// Every clue's unit clause is present.
pub open spec fn covers_clues(cls: Seq<Seq<int>>, p: Seq<Seq<usize>>) -> bool {
    forall|r: int, c: int|
        0 <= r < 9 && 0 <= c < 9 && #[trigger] p[r][c] != 0 ==> has_clause(
            cls,
            unit_clause(var_of(r, c, p[r][c] as int)),
        )
}

/// Rule coverage survives growth of the clause list.
pub proof fn lemma_covers_rules_prefix(cls1: Seq<Seq<int>>, cls2: Seq<Seq<int>>)
    requires
        clause_prefix(cls1, cls2),
        covers_rules(cls1),
    ensures
        covers_rules(cls2),
{
    assert forall|r: int, c: int| 0 <= r < 9 && 0 <= c < 9 implies has_clause(
        cls2,
        #[trigger] cell_clause(r, c),
    ) by {
        lemma_has_clause_prefix(cls1, cls2, cell_clause(r, c));
    }
    assert forall|r: int, c1: int, c2: int, d: int|
        0 <= r < 9 && 0 <= c1 < c2 < 9 && 1 <= d <= 9 implies has_clause(
        cls2,
        #[trigger] pair_clause(var_of(r, c1, d), var_of(r, c2, d)),
    ) by {
        lemma_has_clause_prefix(cls1, cls2, pair_clause(var_of(r, c1, d), var_of(r, c2, d)));
    }
    assert forall|c: int, r1: int, r2: int, d: int|
        0 <= c < 9 && 0 <= r1 < r2 < 9 && 1 <= d <= 9 implies has_clause(
        cls2,
        #[trigger] pair_clause(var_of(r1, c, d), var_of(r2, c, d)),
    ) by {
        lemma_has_clause_prefix(cls1, cls2, pair_clause(var_of(r1, c, d), var_of(r2, c, d)));
    }
    assert forall|r1: int, c1: int, r2: int, c2: int, d: int|
        0 <= r1 < 9 && 0 <= c1 < 9 && 0 <= r2 < 9 && 0 <= c2 < 9 && 1 <= d <= 9
            && r1 / 3 == r2 / 3 && c1 / 3 == c2 / 3
            && (r1 < r2 || (r1 == r2 && c1 < c2)) implies has_clause(
        cls2,
        #[trigger] pair_clause(var_of(r1, c1, d), var_of(r2, c2, d)),
    ) by {
        lemma_has_clause_prefix(cls1, cls2, pair_clause(var_of(r1, c1, d), var_of(r2, c2, d)));
    }
}

/// Distinct (row, col, digit) triples map to distinct variables.
pub proof fn lemma_var_of_injective(r1: int, c1: int, d1: int, r2: int, c2: int, d2: int)
    requires
        0 <= r1 < 9,
        0 <= c1 < 9,
        1 <= d1 <= 9,
        0 <= r2 < 9,
        0 <= c2 < 9,
        1 <= d2 <= 9,
        var_of(r1, c1, d1) == var_of(r2, c2, d2),
    ensures
        r1 == r2 && c1 == c2 && d1 == d2,
{
}

/// Membership in the solution set, cell by cell.
pub proof fn lemma_sol_set_contains(s: Seq<Seq<usize>>, r: int, c: int, d: int)
    requires
        0 <= r < 9,
        0 <= c < 9,
        1 <= d <= 9,
    ensures
        sol_set(s).contains(var_of(r, c, d)) <==> s[r][c] == d,
{
    if s[r][c] == d {
        assert(1 <= s[r][c] <= 9);
        assert(var_of(r, c, d) == var_of(r, c, s[r][c] as int));
    }
    if sol_set(s).contains(var_of(r, c, d)) {
        let (r2, c2) = choose|r2: int, c2: int|
            0 <= r2 < 9 && 0 <= c2 < 9 && 1 <= s[r2][c2] <= 9 && var_of(r, c, d) == #[trigger] var_of(
                r2,
                c2,
                s[r2][c2] as int,
            );
        lemma_var_of_injective(r, c, d, r2, c2, s[r2][c2] as int);
    }
}

/// Appending a satisfied clause keeps the list satisfied.
pub proof fn lemma_all_sat_push(t: Set<int>, cls: Seq<Seq<int>>, cl: Seq<int>)
    requires
        all_sat(t, cls),
        clause_sat(t, cl),
    ensures
        all_sat(t, cls.push(cl)),
{
    assert forall|i: int| 0 <= i < cls.push(cl).len() implies clause_sat(
        t,
        #[trigger] cls.push(cl)[i],
    ) by {
        if i < cls.len() {
            assert(cls.push(cl)[i] == cls[i]);
        } else {
            assert(cls.push(cl)[i] == cl);
        }
    }
}

/// A complete grid satisfies the definedness clause of every cell.
pub proof fn lemma_complete_sat_cell(s: Seq<Seq<usize>>, r: int, c: int)
    requires
        complete(s),
        0 <= r < 9,
        0 <= c < 9,
    ensures
        clause_sat(sol_set(s), cell_clause(r, c)),
{
    let d = s[r][c] as int;
    assert(1 <= d <= 9);
    lemma_sol_set_contains(s, r, c, d);
    assert(cell_clause(r, c)[d - 1] == pos_lit(var_of(r, c, d)));
    assert(lit_sat(sol_set(s), cell_clause(r, c)[d - 1]));
}

/// A consistent complete grid satisfies the uniqueness clause of any two
/// distinct cells of one unit, for any digit.
pub proof fn lemma_complete_sat_pair(
    s: Seq<Seq<usize>>,
    r1: int,
    c1: int,
    r2: int,
    c2: int,
    d: int,
)
    requires
        complete(s),
        0 <= r1 < 9,
        0 <= c1 < 9,
        0 <= r2 < 9,
        0 <= c2 < 9,
        !(r1 == r2 && c1 == c2),
        same_unit(r1, c1, r2, c2),
        1 <= d <= 9,
    ensures
        clause_sat(sol_set(s), pair_clause(var_of(r1, c1, d), var_of(r2, c2, d))),
{
    let cl = pair_clause(var_of(r1, c1, d), var_of(r2, c2, d));
    lemma_sol_set_contains(s, r1, c1, d);
    lemma_sol_set_contains(s, r2, c2, d);
    if s[r1][c1] == d {
        assert(s[r1][c1] != 0);
        assert(s[r1][c1] != s[r2][c2]);
        assert(lit_sat(sol_set(s), cl[1]));
    } else {
        assert(lit_sat(sol_set(s), cl[0]));
    }
}

/// A completion satisfies the unit clause of every clue.
pub proof fn lemma_completion_sat_unit(p: Seq<Seq<usize>>, s: Seq<Seq<usize>>, r: int, c: int)
    requires
        grid_wf(p),
        is_completion(p, s),
        0 <= r < 9,
        0 <= c < 9,
        p[r][c] != 0,
    ensures
        clause_sat(sol_set(s), unit_clause(var_of(r, c, p[r][c] as int))),
{
    let d = p[r][c] as int;
    assert(s[r][c] == p[r][c]);
    lemma_sol_set_contains(s, r, c, d);
    assert(lit_sat(sol_set(s), unit_clause(var_of(r, c, d))[0]));
}

/// Exactly one digit variable of the cell is true.
pub open spec fn cell_exactly_one(t: Set<int>, r: int, c: int) -> bool {
    exists|d: int|
        1 <= d <= 9 && t.contains(#[trigger] var_of(r, c, d)) && (forall|d2: int|
            1 <= d2 <= 9 && t.contains(#[trigger] var_of(r, c, d2)) ==> d2 == d)
}

/// The two halves above together: a model of the rule clauses determines one
/// digit per cell, so the decoder's reading is total and unambiguous.
pub proof fn lemma_model_determines_cell(cls: Seq<Seq<int>>, t: Set<int>, r: int, c: int)
    requires
        covers_cells(cls),
        covers_row_pairs(cls),
        all_sat(t, cls),
        0 <= r < 9,
        0 <= c < 9,
    ensures
        cell_exactly_one(t, r, c),
{
    lemma_model_some_digit(cls, t, r, c);
    let d = choose|d: int| 1 <= d <= 9 && t.contains(#[trigger] var_of(r, c, d));
    assert forall|d2: int| 1 <= d2 <= 9 && t.contains(#[trigger] var_of(r, c, d2)) implies d2
        == d by {
        lemma_model_at_most_one_digit(cls, t, r, c, d2, d);
    }
}

/// One decoded cell: it carries exactly the one digit whose variable is true.
pub open spec fn cell_decoded(s: Seq<Seq<usize>>, t: Set<int>, r: int, c: int) -> bool {
    1 <= s[r][c] <= 9 && t.contains(var_of(r, c, s[r][c] as int)) && (forall|d: int|
        1 <= d <= 9 && d != s[r][c] as int ==> !t.contains(#[trigger] var_of(r, c, d)))
}

/// What a decoded grid asserts about the set of true variables: each cell
/// carries exactly the one digit whose variable is true.
pub open spec fn decoded_matches(s: Seq<Seq<usize>>, t: Set<int>) -> bool {
    forall|r: int, c: int| 0 <= r < 9 && 0 <= c < 9 ==> #[trigger] cell_decoded(s, t, r, c)
}

/// A digit is true in at most one cell of a row: its uniqueness clause rules
/// two out.
proof fn lemma_row_pair_blocks(cls: Seq<Seq<int>>, t: Set<int>, r: int, ca: int, cb: int, d: int)
    requires
        covers_row_pairs(cls),
        all_sat(t, cls),
        0 <= r < 9,
        0 <= ca < 9,
        0 <= cb < 9,
        ca != cb,
        1 <= d <= 9,
    ensures
        !(t.contains(var_of(r, ca, d)) && t.contains(var_of(r, cb, d))),
{
    let c1 = if ca < cb { ca } else { cb };
    let c2 = if ca < cb { cb } else { ca };
    let cl = pair_clause(var_of(r, c1, d), var_of(r, c2, d));
    assert(has_clause(cls, cl));
    let i = choose|i: int| 0 <= i < cls.len() && #[trigger] cls[i] == cl;
    assert(clause_sat(t, cl));
    let j = choose|j: int| 0 <= j < cl.len() && lit_sat(t, #[trigger] cl[j]);
    assert(cl[0] == neg_lit(var_of(r, c1, d)));
    assert(cl[1] == neg_lit(var_of(r, c2, d)));
}

/// A model of the rule clauses gives every cell at least one true digit.
pub proof fn lemma_model_some_digit(cls: Seq<Seq<int>>, t: Set<int>, r: int, c: int)
    requires
        covers_cells(cls),
        all_sat(t, cls),
        0 <= r < 9,
        0 <= c < 9,
    ensures
        exists|d: int| 1 <= d <= 9 && t.contains(#[trigger] var_of(r, c, d)),
{
    let cl = cell_clause(r, c);
    assert(has_clause(cls, cl));
    let i = choose|i: int| 0 <= i < cls.len() && #[trigger] cls[i] == cl;
    assert(clause_sat(t, cl));
    let j = choose|j: int| 0 <= j < cl.len() && lit_sat(t, #[trigger] cl[j]);
    assert(cl[j] == pos_lit(var_of(r, c, j + 1)));
    assert(t.contains(var_of(r, c, j + 1)));
}

/// A model of the rule clauses gives no cell two true digits: each of the
/// nine cells of the row holds at least one true digit, each digit is true in
/// at most one cell of the row, and a doubled cell would leave the other
/// eight cells only seven digits to draw on.
pub proof fn lemma_model_at_most_one_digit(
    cls: Seq<Seq<int>>,
    t: Set<int>,
    r: int,
    c: int,
    d1: int,
    d2: int,
)
    requires
        covers_cells(cls),
        covers_row_pairs(cls),
        all_sat(t, cls),
        0 <= r < 9,
        0 <= c < 9,
        1 <= d1 <= 9,
        1 <= d2 <= 9,
        t.contains(var_of(r, c, d1)),
        t.contains(var_of(r, c, d2)),
    ensures
        d1 == d2,
{
    if d1 != d2 {
        // pick one true digit for every cell of the row, the doubled cell
        // contributing d1
        let g = |cp: int|
            if cp == c {
                d1
            } else {
                choose|d: int| 1 <= d <= 9 && t.contains(#[trigger] var_of(r, cp, d))
            };
        let cols = set_int_range(0, 9);
        let digits = set_int_range(1, 10);
        assert forall|cp: int| cols.contains(cp) implies 1 <= #[trigger] g(cp) <= 9 && t.contains(
            var_of(r, cp, g(cp)),
        ) by {
            if cp != c {
                lemma_model_some_digit(cls, t, r, cp);
            }
        }
        // distinct cells never share their true digit
        assert forall|x1: int, x2: int|
            cols.contains(x1) && cols.contains(x2) && #[trigger] g(x1) == #[trigger] g(x2)
                implies x1 == x2 by {
            if x1 != x2 {
                lemma_row_pair_blocks(cls, t, r, x1, x2, g(x1));
            }
        }
        assert(injective_on(g, cols));
        // so the nine chosen digits exhaust 1..=9, and d2 is one of them
        let image = cols.map(g);
        lemma_int_range(0, 9);
        lemma_int_range(1, 10);
        lemma_map_size(cols, image, g);
        assert forall|b: int| image.contains(b) implies digits.contains(b) by {
            let a = choose|a: int| cols.contains(a) && b == g(a);
        }
        lemma_subset_equality(image, digits);
        assert(digits.contains(d2));
        assert(image.contains(d2));
        let cp = choose|a: int| cols.contains(a) && d2 == g(a);
        if cp == c {
            assert(g(c) == d1);
        } else {
            assert(t.contains(var_of(r, cp, d2)));
            lemma_row_pair_blocks(cls, t, r, c, cp, d2);
        }
    }
}

/// The decoding theorem: a grid read off a set of true variables that
/// satisfies the minimal rule clauses and the puzzle's clue clauses is a
/// completion of the puzzle.
pub proof fn lemma_decode_correct(
    cls: Seq<Seq<int>>,
    t: Set<int>,
    p: Seq<Seq<usize>>,
    s: Seq<Seq<usize>>,
)
    requires
        covers_rules(cls),
        covers_clues(cls, p),
        all_sat(t, cls),
        grid_wf(p),
        grid_shaped(s),
        decoded_matches(s, t),
    ensures
        is_completion(p, s),
{
    // complete: shape and digits are immediate from decoded_matches
    assert forall|r: int, c: int| 0 <= r < 9 && 0 <= c < 9 implies 1 <= #[trigger] s[r][c]
        <= 9 by {
        assert(cell_decoded(s, t, r, c));
    }
    assert forall|r1: int, c1: int, r2: int, c2: int|
        0 <= r1 < 9 && 0 <= c1 < 9 && 0 <= r2 < 9 && 0 <= c2 < 9
            && !(r1 == r2 && c1 == c2) && same_unit(r1, c1, r2, c2) && s[r1][c1] != 0
            implies s[r1][c1] != s[r2][c2] by {
        if s[r1][c1] == s[r2][c2] {
            let d = s[r1][c1] as int;
            assert(cell_decoded(s, t, r1, c1));
            assert(cell_decoded(s, t, r2, c2));
            assert(t.contains(var_of(r1, c1, d)));
            assert(t.contains(var_of(r2, c2, d)));
            let cl = if r1 == r2 {
                if c1 < c2 {
                    pair_clause(var_of(r1, c1, d), var_of(r2, c2, d))
                } else {
                    pair_clause(var_of(r2, c2, d), var_of(r1, c1, d))
                }
            } else if c1 == c2 {
                if r1 < r2 {
                    pair_clause(var_of(r1, c1, d), var_of(r2, c2, d))
                } else {
                    pair_clause(var_of(r2, c2, d), var_of(r1, c1, d))
                }
            } else {
                if r1 < r2 || (r1 == r2 && c1 < c2) {
                    pair_clause(var_of(r1, c1, d), var_of(r2, c2, d))
                } else {
                    pair_clause(var_of(r2, c2, d), var_of(r1, c1, d))
                }
            };
            assert(has_clause(cls, cl));
            let i = choose|i: int| 0 <= i < cls.len() && #[trigger] cls[i] == cl;
            assert(clause_sat(t, cl));
            let j = choose|j: int| 0 <= j < cl.len() && lit_sat(t, #[trigger] cl[j]);
            assert(cl[0] == neg_lit(var_of(r1, c1, d)) || cl[0] == neg_lit(var_of(r2, c2, d)));
            assert(false);
        }
    }
    assert(consistent(s));
    assert(complete(s));
    // extends: a clue's unit clause forces its variable true, and the decoded
    // cell carries the only true digit
    assert forall|r: int, c: int|
        0 <= r < 9 && 0 <= c < 9 && #[trigger] p[r][c] != 0 implies s[r][c] == p[r][c] by {
        let d = p[r][c] as int;
        assert(1 <= d <= 9);
        let cl = unit_clause(var_of(r, c, d));
        assert(has_clause(cls, cl));
        let i = choose|i: int| 0 <= i < cls.len() && #[trigger] cls[i] == cl;
        assert(clause_sat(t, cl));
        let j = choose|j: int| 0 <= j < cl.len() && lit_sat(t, #[trigger] cl[j]);
        assert(j == 0);
        assert(t.contains(var_of(r, c, d)));
        assert(cell_decoded(s, t, r, c));
        if s[r][c] as int != d {
            assert(!t.contains(var_of(r, c, d)));
            assert(false);
        }
    }
    assert(extends(p, s));
}

} // verus!
