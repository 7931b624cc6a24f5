use vstd::prelude::*;
use vstd::arithmetic::div_mod::{
    lemma_fundamental_div_mod, lemma_mod_multiples_vanish, lemma_mod_bound,
};
use crate::grid::{
    grid_shaped, same_unit, consistent, full, complete, extends, is_completion, scan_before,
    agree_before, lex_lt, lex_le,
};
use crate::cnf::var_of;
use crate::sat::SudokuSat;

verus! {

/// The literal map is injective: distinct (row, col, digit) triples of a
/// well-formed SAT model never share a variable.
pub proof fn lemma_lit_map_injective(
    m: SudokuSat,
    r1: int,
    c1: int,
    d1: int,
    r2: int,
    c2: int,
    d2: int,
)
    requires
        m.wf(),
        0 <= r1 < 9,
        0 <= c1 < 9,
        1 <= d1 <= 9,
        0 <= r2 < 9,
        0 <= c2 < 9,
        1 <= d2 <= 9,
        !(r1 == r2 && c1 == c2 && d1 == d2),
    ensures
        m.literals@[r1]@[c1]@[d1 - 1] != m.literals@[r2]@[c2]@[d2 - 1],
{
    assert(m.literals@[r1]@[c1]@[d1 - 1] as int == var_of(r1, c1, d1));
    assert(m.literals@[r2]@[c2]@[d2 - 1] as int == var_of(r2, c2, d2));
}

/// Strategy equivalence: when a puzzle has exactly one completion, any two
/// answers that honour the solver contract (each a completion of the puzzle)
/// are the same grid, so the SAT and the backtracking strategy agree.
pub proof fn lemma_strategies_agree(
    p: Seq<Seq<usize>>,
    u: Seq<Seq<usize>>,
    g1: Seq<Seq<usize>>,
    g2: Seq<Seq<usize>>,
)
    requires
        forall|s: Seq<Seq<usize>>| #[trigger] is_completion(p, s) <==> s == u,
        is_completion(p, g1),
        is_completion(p, g2),
    ensures
        g1 == g2,
{
}

/// Idempotence: an already-complete consistent grid is its own only
/// completion, so solving it can only hand it back unchanged.
pub proof fn lemma_complete_grid_own_completion(p: Seq<Seq<usize>>, g: Seq<Seq<usize>>)
    requires
        complete(p),
        is_completion(p, g),
    ensures
        g == p,
{
    assert forall|r: int| 0 <= r < 9 implies g[r] =~= p[r] by {
        assert forall|c: int| 0 <= c < 9 implies g[r][c] == p[r][c] by {
            assert(p[r][c] != 0);
        }
    }
    assert(g =~~= p);
}

/// Determinism of a least-completion solver: two completions that are each
/// no later than every completion of the puzzle are the same grid, so
/// repeated calls on one puzzle return equal results.
pub proof fn lemma_lex_least_unique(p: Seq<Seq<usize>>, g1: Seq<Seq<usize>>, g2: Seq<Seq<usize>>)
    requires
        is_completion(p, g1),
        is_completion(p, g2),
        forall|s: Seq<Seq<usize>>| #[trigger] is_completion(p, s) ==> lex_le(g1, s),
        forall|s: Seq<Seq<usize>>| #[trigger] is_completion(p, s) ==> lex_le(g2, s),
    ensures
        g1 == g2,
{
    if g1 != g2 {
        assert(lex_lt(g1, g2));
        assert(lex_lt(g2, g1));
        let (ra, ca) = choose|r: int, c: int|
            0 <= r < 9 && 0 <= c < 9 && #[trigger] agree_before(g1, g2, r, c) && g1[r][c]
                < g2[r][c];
        let (rb, cb) = choose|r: int, c: int|
            0 <= r < 9 && 0 <= c < 9 && #[trigger] agree_before(g2, g1, r, c) && g2[r][c]
                < g1[r][c];
        if scan_before(ra, ca, rb, cb) {
            assert(g2[ra][ca] == g1[ra][ca]);
        } else if scan_before(rb, cb, ra, ca) {
            assert(g1[rb][cb] == g2[rb][cb]);
        } else {
            assert(ra == rb && ca == cb);
        }
    }
}

/// The classic pattern completion, shifted by `k`: cell (r, c) holds digit
/// ((3r + r/3 + c + k) mod 9) + 1.
pub open spec fn pattern_value(r: int, c: int, k: int) -> int {
    (3 * r + r / 3 + c + k) % 9 + 1
}

pub open spec fn pattern_grid(k: int) -> Seq<Seq<usize>> {
    Seq::new(9, |r: int| Seq::new(9, |c: int| pattern_value(r, c, k) as usize))
}

/// The puzzle with every cell open.
pub open spec fn empty_grid() -> Seq<Seq<usize>> {
    Seq::new(9, |r: int| Seq::new(9, |c: int| 0usize))
}

/// Two integers less than nine apart never share a residue modulo nine.
proof fn lemma_mod9_distinct(a: int, b: int)
    requires
        a != b,
        -9 < a - b < 9,
    ensures
        a % 9 != b % 9,
{
    if a % 9 == b % 9 {
        lemma_fundamental_div_mod(a, 9);
        lemma_fundamental_div_mod(b, 9);
        let m = a / 9 - b / 9;
        assert(a - b == 9 * m);
    }
}

/// Two distinct cells of one unit take distinct pattern digits.
proof fn lemma_pattern_distinct(r1: int, c1: int, r2: int, c2: int, k: int)
    requires
        0 <= r1 < 9,
        0 <= c1 < 9,
        0 <= r2 < 9,
        0 <= c2 < 9,
        0 <= k < 9,
        !(r1 == r2 && c1 == c2),
        same_unit(r1, c1, r2, c2),
    ensures
        pattern_value(r1, c1, k) != pattern_value(r2, c2, k),
{
    let a1 = r1 / 3;
    let b1 = r1 % 3;
    let a2 = r2 / 3;
    let b2 = r2 % 3;
    lemma_fundamental_div_mod(r1, 3);
    lemma_fundamental_div_mod(r2, 3);
    lemma_mod_bound(r1, 3);
    lemma_mod_bound(r2, 3);
    // peel the full multiples of nine off the pattern's argument
    let u1 = a1 + 3 * b1 + c1 + k;
    let u2 = a2 + 3 * b2 + c2 + k;
    assert(3 * r1 + r1 / 3 + c1 + k == 9 * a1 + u1);
    assert(3 * r2 + r2 / 3 + c2 + k == 9 * a2 + u2);
    lemma_mod_multiples_vanish(a1, u1, 9);
    lemma_mod_multiples_vanish(a2, u2, 9);
    // within one unit the peeled arguments differ by less than nine
    if r1 == r2 {
        assert(u1 - u2 == c1 - c2);
    } else if c1 == c2 {
        assert(u1 != u2);
    } else {
        assert(r1 / 3 == r2 / 3 && c1 / 3 == c2 / 3);
        let e1 = c1 % 3;
        let e2 = c2 % 3;
        lemma_fundamental_div_mod(c1, 3);
        lemma_fundamental_div_mod(c2, 3);
        lemma_mod_bound(c1, 3);
        lemma_mod_bound(c2, 3);
        assert(u1 - u2 == 3 * (b1 - b2) + (e1 - e2));
        assert(u1 != u2);
    }
    lemma_mod9_distinct(u1, u2);
}

/// Each shifted pattern grid is a complete consistent grid.
pub proof fn lemma_pattern_complete(k: int)
    requires
        0 <= k < 9,
    ensures
        complete(pattern_grid(k)),
{
    let s = pattern_grid(k);
    assert forall|r: int, c: int| 0 <= r < 9 && 0 <= c < 9 implies 1 <= #[trigger] s[r][c]
        <= 9 by {
        lemma_mod_bound(3 * r + r / 3 + c + k, 9);
        assert(s[r][c] == pattern_value(r, c, k) as usize);
    }
    assert(grid_shaped(s));
    assert(full(s));
    assert forall|r1: int, c1: int, r2: int, c2: int|
        #![trigger s[r1][c1], s[r2][c2]]
        0 <= r1 < 9 && 0 <= c1 < 9 && 0 <= r2 < 9 && 0 <= c2 < 9
            && !(r1 == r2 && c1 == c2) && same_unit(r1, c1, r2, c2) && s[r1][c1] != 0
            implies s[r1][c1] != s[r2][c2] by {
        lemma_pattern_distinct(r1, c1, r2, c2, k);
        lemma_mod_bound(3 * r1 + r1 / 3 + c1 + k, 9);
        lemma_mod_bound(3 * r2 + r2 / 3 + c2 + k, 9);
        assert(s[r1][c1] == pattern_value(r1, c1, k) as usize);
        assert(s[r2][c2] == pattern_value(r2, c2, k) as usize);
    }
    assert(consistent(s));
}

/// The empty grid has a completion, so both strategies owe it some complete
/// consistent grid.
pub proof fn lemma_empty_grid_solvable()
    ensures
        exists|s: Seq<Seq<usize>>| #[trigger] is_completion(empty_grid(), s),
{
    lemma_pattern_complete(0);
    assert(extends(empty_grid(), pattern_grid(0)));
    assert(is_completion(empty_grid(), pattern_grid(0)));
}

/// A puzzle whose one clue is the digit 7 at the centre cell has a completion
/// that keeps it.
pub proof fn lemma_single_centre_clue_solvable(p: Seq<Seq<usize>>)
    requires
        p[4][4] == 7,
        forall|r: int, c: int|
            0 <= r < 9 && 0 <= c < 9 && !(r == 4 && c == 4) ==> #[trigger] p[r][c] == 0,
    ensures
        exists|s: Seq<Seq<usize>>| #[trigger] is_completion(p, s) && s[4][4] == 7,
{
    lemma_pattern_complete(7);
    let w = pattern_grid(7);
    assert(pattern_value(4, 4, 7) == 7);
    assert(w[4][4] == 7usize);
    assert forall|r: int, c: int|
        0 <= r < 9 && 0 <= c < 9 && #[trigger] p[r][c] != 0 implies w[r][c] == p[r][c] by {
        assert(r == 4 && c == 4);
    }
    assert(is_completion(p, w) && w[4][4] == 7);
}

/// A puzzle holding two equal nonzero clues in one unit has no completion.
pub proof fn lemma_contradictory_clues(p: Seq<Seq<usize>>, r1: int, c1: int, r2: int, c2: int)
    requires
        0 <= r1 < 9,
        0 <= c1 < 9,
        0 <= r2 < 9,
        0 <= c2 < 9,
        !(r1 == r2 && c1 == c2),
        same_unit(r1, c1, r2, c2),
        p[r1][c1] != 0,
        p[r1][c1] == p[r2][c2],
    ensures
        forall|s: Seq<Seq<usize>>| !#[trigger] is_completion(p, s),
{
    assert forall|s: Seq<Seq<usize>>| !#[trigger] is_completion(p, s) by {
        if is_completion(p, s) {
            assert(s[r1][c1] == p[r1][c1]);
            assert(s[r2][c2] == p[r2][c2]);
            assert(s[r1][c1] != s[r2][c2]);
        }
    }
}

} // verus!
