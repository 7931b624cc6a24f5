use vstd::prelude::*;
use crate::grid::{
    Grid, gv, grid_shaped, grid_wf, same_unit, consistent, full, complete, is_completion,
    zeros_in_row, zeros_up_to, count_zeros, scan_before, agree_before, lex_lt, lex_le,
};
use crate::laws::lemma_complete_grid_own_completion;
use crate::solver::SudokuSolver;

verus! {

/// The grid with one cell replaced.
pub open spec fn update_cell(s: Seq<Seq<usize>>, r: int, c: int, v: usize) -> Seq<Seq<usize>> {
    s.update(r, s[r].update(c, v))
}

/// Placing digit `d` at `(r, c)` clashes with no cell of the same unit.
pub open spec fn no_conflict(s: Seq<Seq<usize>>, r: int, c: int, d: usize) -> bool {
    forall|r2: int, c2: int|
        0 <= r2 < 9 && 0 <= c2 < 9 && same_unit(r, c, r2, c2) ==> #[trigger] s[r2][c2] != d
}

proof fn lemma_zeros_in_row_nonneg(row: Seq<usize>, n: int)
    ensures
        zeros_in_row(row, n) >= 0,
    decreases n,
{
    if n > 0 {
        lemma_zeros_in_row_nonneg(row, n - 1);
    }
}

proof fn lemma_zeros_up_to_nonneg(s: Seq<Seq<usize>>, r: int)
    ensures
        zeros_up_to(s, r) >= 0,
    decreases r,
{
    if r > 0 {
        lemma_zeros_up_to_nonneg(s, r - 1);
        lemma_zeros_in_row_nonneg(s[r - 1], 9);
    }
}

proof fn lemma_zeros_in_row_update(row: Seq<usize>, c: int, v: usize, n: int)
    requires
        0 <= c < row.len(),
        n <= row.len(),
    ensures
        zeros_in_row(row.update(c, v), n) == zeros_in_row(row, n) + if c < n {
            (if v == 0 { 1int } else { 0int }) - (if row[c] == 0 { 1int } else { 0int })
        } else {
            0int
        },
    decreases n,
{
    if n > 0 {
        lemma_zeros_in_row_update(row, c, v, n - 1);
    }
}

proof fn lemma_zeros_up_to_update(s: Seq<Seq<usize>>, r: int, c: int, v: usize, k: int)
    requires
        grid_shaped(s),
        0 <= r < 9,
        0 <= c < 9,
        k <= 9,
    ensures
        zeros_up_to(update_cell(s, r, c, v), k) == zeros_up_to(s, k) + if r < k {
            (if v == 0 { 1int } else { 0int }) - (if s[r][c] == 0 { 1int } else { 0int })
        } else {
            0int
        },
    decreases k,
{
    if k > 0 {
        lemma_zeros_up_to_update(s, r, c, v, k - 1);
        if k - 1 == r {
            lemma_zeros_in_row_update(s[r], c, v, 9);
        } else {
            assert(update_cell(s, r, c, v)[k - 1] == s[k - 1]);
        }
    }
}

/// Filling an empty cell with a digit lowers the number of empty cells by one.
proof fn lemma_count_zeros_fill(s: Seq<Seq<usize>>, r: int, c: int, v: usize)
    requires
        grid_shaped(s),
        0 <= r < 9,
        0 <= c < 9,
        s[r][c] == 0,
        v != 0,
    ensures
        count_zeros(update_cell(s, r, c, v)) == count_zeros(s) - 1,
{
    lemma_zeros_up_to_update(s, r, c, v, 9);
}

/// A conflict-free placement in an empty cell keeps the grid consistent.
proof fn lemma_place_consistent(s: Seq<Seq<usize>>, r: int, c: int, d: usize)
    requires
        grid_shaped(s),
        consistent(s),
        0 <= r < 9,
        0 <= c < 9,
        s[r][c] == 0,
        1 <= d <= 9,
        no_conflict(s, r, c, d),
    ensures
        consistent(update_cell(s, r, c, d)),
{
    let t = update_cell(s, r, c, d);
    assert forall|r1: int, c1: int, r2: int, c2: int|
        0 <= r1 < 9 && 0 <= c1 < 9 && 0 <= r2 < 9 && 0 <= c2 < 9
            && !(r1 == r2 && c1 == c2) && same_unit(r1, c1, r2, c2) && t[r1][c1] != 0
            implies t[r1][c1] != t[r2][c2] by {
        assert(t[r1][c1] == if r1 == r && c1 == c { d } else { s[r1][c1] });
        assert(t[r2][c2] == if r2 == r && c2 == c { d } else { s[r2][c2] });
        if r1 == r && c1 == c {
            assert(s[r2][c2] != d);
        } else if r2 == r && c2 == c {
            assert(s[r1][c1] != d);
        } else {
            assert(s[r1][c1] != 0 ==> s[r1][c1] != s[r2][c2]);
        }
    }
}

/// A completion must fill an empty cell with a digit that has no conflict there.
proof fn lemma_completion_placeable(p: Seq<Seq<usize>>, s: Seq<Seq<usize>>, r: int, c: int)
    requires
        grid_shaped(p),
        is_completion(p, s),
        0 <= r < 9,
        0 <= c < 9,
        p[r][c] == 0,
    ensures
        1 <= s[r][c] <= 9,
        no_conflict(p, r, c, s[r][c]),
        is_completion(update_cell(p, r, c, s[r][c]), s),
{
    let d = s[r][c];
    assert(s[r][c] != 0);
    assert(s[r][c] <= 9);
    assert forall|r2: int, c2: int|
        0 <= r2 < 9 && 0 <= c2 < 9 && same_unit(r, c, r2, c2) implies #[trigger] p[r2][c2] != d by {
        if p[r2][c2] != 0 {
            assert(s[r2][c2] == p[r2][c2]);
            if !(r2 == r && c2 == c) {
                assert(s[r][c] != s[r2][c2]);
            }
        }
    }
    let q = update_cell(p, r, c, d);
    assert forall|r2: int, c2: int|
        0 <= r2 < 9 && 0 <= c2 < 9 && #[trigger] q[r2][c2] != 0 implies s[r2][c2] == q[r2][c2] by {
        assert(q[r2][c2] == if r2 == r && c2 == c { d } else { p[r2][c2] });
    }
}

/// Scan for the first empty cell, row-major.
pub fn find_empty(grid: &Grid) -> (r: Option<(usize, usize)>)
    ensures
        (match r {
            Some(rc) => rc.0 < 9 && rc.1 < 9 && gv(*grid)[rc.0 as int][rc.1 as int] == 0
                && (forall|r2: int, c2: int|
                0 <= r2 < 9 && 0 <= c2 < 9 && scan_before(r2, c2, rc.0 as int, rc.1 as int)
                    ==> #[trigger] gv(*grid)[r2][c2] != 0),
            None => full(gv(*grid)),
        }),
{
    let mut row: usize = 0;
    while row < 9
        invariant
            row <= 9,
            forall|r2: int, c2: int|
                0 <= r2 < row && 0 <= c2 < 9 ==> #[trigger] gv(*grid)[r2][c2] != 0,
        decreases 9 - row,
    {
        let mut col: usize = 0;
        while col < 9
            invariant
                row < 9,
                col <= 9,
                forall|r2: int, c2: int|
                    0 <= r2 < row && 0 <= c2 < 9 ==> #[trigger] gv(*grid)[r2][c2] != 0,
                forall|c2: int| 0 <= c2 < col ==> #[trigger] gv(*grid)[row as int][c2] != 0,
            decreases 9 - col,
        {
            if grid[row][col] == 0 {
                return Some((row, col));
            }
            col += 1;
        }
        row += 1;
    }
    None
}

/// Can digit `d` be placed at `(row, col)` without clashing in its row, column or box?
pub fn is_valid(grid: &Grid, row: usize, col: usize, d: usize) -> (b: bool)
    requires
        row < 9,
        col < 9,
        1 <= d <= 9,
    ensures
        b == no_conflict(gv(*grid), row as int, col as int, d),
{
    let s = Ghost(gv(*grid));
    // row
    let mut c: usize = 0;
    while c < 9
        invariant
            c <= 9,
            s@ == gv(*grid),
            row < 9,
            col < 9,
            forall|c2: int| 0 <= c2 < c ==> #[trigger] s@[row as int][c2] != d,
        decreases 9 - c,
    {
        if grid[row][c] == d {
            assert(s@[row as int][c as int] == d);
            return false;
        }
        c += 1;
    }
    // column
    let mut r: usize = 0;
    while r < 9
        invariant
            r <= 9,
            s@ == gv(*grid),
            row < 9,
            col < 9,
            forall|r2: int| 0 <= r2 < r ==> #[trigger] s@[r2][col as int] != d,
        decreases 9 - r,
    {
        if grid[r][col] == d {
            assert(s@[r as int][col as int] == d);
            return false;
        }
        r += 1;
    }
    // box
    let br = (row / 3) * 3;
    let bc = (col / 3) * 3;
    let mut r: usize = br;
    while r < br + 3
        invariant
            br <= r <= br + 3,
            br == (row / 3) * 3,
            bc == (col / 3) * 3,
            s@ == gv(*grid),
            row < 9,
            col < 9,
            forall|r2: int, c2: int|
                br <= r2 < r && bc <= c2 < bc + 3 ==> #[trigger] s@[r2][c2] != d,
        decreases br + 3 - r,
    {
        let mut c: usize = bc;
        while c < bc + 3
            invariant
                br <= r < br + 3,
                bc <= c <= bc + 3,
                br == (row / 3) * 3,
                bc == (col / 3) * 3,
                s@ == gv(*grid),
                row < 9,
                col < 9,
                forall|r2: int, c2: int|
                    br <= r2 < r && bc <= c2 < bc + 3 ==> #[trigger] s@[r2][c2] != d,
                forall|c2: int| bc <= c2 < c ==> #[trigger] s@[r as int][c2] != d,
            decreases bc + 3 - c,
        {
            if grid[r][c] == d {
                assert(s@[r as int][c as int] == d);
                assert(same_unit(row as int, col as int, r as int, c as int));
                return false;
            }
            c += 1;
        }
        r += 1;
    }
    assert forall|r2: int, c2: int|
        0 <= r2 < 9 && 0 <= c2 < 9 && same_unit(row as int, col as int, r2, c2)
            implies #[trigger] s@[r2][c2] != d by {
        if r2 == row as int {
        } else if c2 == col as int {
        } else {
            assert(r2 / 3 == (row as int) / 3 && c2 / 3 == (col as int) / 3);
            assert(br as int <= r2 < br as int + 3);
            assert(bc as int <= c2 < bc as int + 3);
        }
    }
    true
}

/// Depth-first search: fill the first empty cell with the least digit that
/// fits, backtracking on failure. Succeeds exactly when a completion exists,
/// and then yields the row-major, digit-ascending lexicographically smallest
/// completion.
pub fn solve_grid(grid: &mut Grid) -> (solved: bool)
    requires
        grid_wf(gv(*old(grid))),
        consistent(gv(*old(grid))),
    ensures
        solved ==> is_completion(gv(*old(grid)), gv(*final(grid))),
        solved ==> forall|s: Seq<Seq<usize>>|
            #[trigger] is_completion(gv(*old(grid)), s) ==> lex_le(gv(*final(grid)), s),
        !solved ==> gv(*final(grid)) == gv(*old(grid)),
        !solved ==> forall|s: Seq<Seq<usize>>| !#[trigger] is_completion(gv(*old(grid)), s),
    decreases count_zeros(gv(*grid)),
{
    let ghost g0 = gv(*old(grid));
    match find_empty(grid) {
        None => {
            assert(complete(g0));
            proof {
                // the full grid is its own only completion
                assert forall|s: Seq<Seq<usize>>| #[trigger] is_completion(g0, s) implies lex_le(
                    gv(*grid),
                    s,
                ) by {
                    lemma_complete_grid_own_completion(g0, s);
                }
            }
            true
        },
        Some((row, col)) => {
            let mut d: usize = 1;
            while d <= 9
                invariant
                    row < 9,
                    col < 9,
                    1 <= d <= 10,
                    g0 == gv(*old(grid)),
                    grid_wf(g0),
                    consistent(g0),
                    g0[row as int][col as int] == 0,
                    forall|r2: int, c2: int|
                        0 <= r2 < 9 && 0 <= c2 < 9 && scan_before(r2, c2, row as int, col as int)
                            ==> #[trigger] g0[r2][c2] != 0,
                    gv(*grid) == g0,
                    count_zeros(gv(*grid)) == count_zeros(g0),
                    forall|s: Seq<Seq<usize>>|
                        #[trigger] is_completion(g0, s) ==> !(s[row as int][col as int] < d),
                decreases 10 - d,
            {
                if is_valid(grid, row, col, d) {
                    let ghost g1 = update_cell(g0, row as int, col as int, d);
                    let mut rowa: [usize; 9] = grid[row];
                    rowa[col] = d;
                    grid[row] = rowa;
                    proof {
                        assert(gv(*grid) =~~= g1);
                        lemma_place_consistent(g0, row as int, col as int, d);
                        assert forall|r2: int, c2: int|
                            0 <= r2 < 9 && 0 <= c2 < 9 implies #[trigger] g1[r2][c2] <= 9 by {
                            assert(g1[r2][c2] == if r2 == row as int && c2 == col as int {
                                d
                            } else {
                                g0[r2][c2]
                            });
                        }
                        lemma_count_zeros_fill(g0, row as int, col as int, d);
                        lemma_zeros_up_to_nonneg(g1, 9);
                    }
                    if solve_grid(grid) {
                        proof {
                            assert(is_completion(g1, gv(*final(grid))));
                            assert forall|r2: int, c2: int|
                                0 <= r2 < 9 && 0 <= c2 < 9 && #[trigger] g0[r2][c2] != 0
                                    implies gv(*grid)[r2][c2] == g0[r2][c2] by {
                                assert(g1[r2][c2] == g0[r2][c2]);
                            }
                            // the result is least: a completion either places d
                            // here too (and the recursion already bounds it) or
                            // places a larger digit at this first empty cell
                            let fin = gv(*grid);
                            assert forall|s: Seq<Seq<usize>>| #[trigger] is_completion(g0, s)
                                implies lex_le(fin, s) by {
                                let ri = row as int;
                                let ci = col as int;
                                assert(!(s[ri][ci] < d));
                                assert(s[ri][ci] != 0 && s[ri][ci] <= 9);
                                if s[ri][ci] == d {
                                    lemma_completion_placeable(g0, s, ri, ci);
                                    assert(is_completion(g1, s));
                                    assert(lex_le(fin, s));
                                } else {
                                    assert forall|r2: int, c2: int|
                                        #![trigger fin[r2][c2], s[r2][c2]]
                                        0 <= r2 < 9 && 0 <= c2 < 9 && scan_before(r2, c2, ri, ci)
                                            implies fin[r2][c2] == s[r2][c2] by {
                                        assert(g0[r2][c2] != 0);
                                        assert(g1[r2][c2] == g0[r2][c2]);
                                        assert(fin[r2][c2] == g1[r2][c2]);
                                        assert(s[r2][c2] == g0[r2][c2]);
                                    }
                                    assert(agree_before(fin, s, ri, ci));
                                    assert(g1[ri][ci] == d);
                                    assert(fin[ri][ci] == d);
                                    assert(lex_lt(fin, s));
                                }
                            }
                        }
                        return true;
                    }
                    proof {
                        assert(gv(*grid) == g1);
                    }
                    let mut rowb: [usize; 9] = grid[row];
                    proof {
                        assert(rowb@ == g1[row as int]);
                        assert(rowb@ == g0[row as int].update(col as int, d));
                    }
                    rowb[col] = 0;
                    proof {
                        assert(rowb@ == g0[row as int].update(col as int, d).update(col as int, 0));
                    }
                    grid[row] = rowb;
                    proof {
                        assert(gv(*grid)[row as int] == rowb@);
                        assert(rowb@ =~= g0[row as int]);
                        assert(gv(*grid)[row as int] =~= g0[row as int]);
                        assert forall|k: int| 0 <= k < 9 && k != row as int
                            implies gv(*grid)[k] == g0[k] by {
                            assert(gv(*grid)[k] == g1[k]);
                            assert(update_cell(g0, row as int, col as int, d)[k] == g0[k]);
                        }
                        assert(gv(*grid).len() == 9);
                        assert(g0.len() == 9);
                        assert(gv(*grid) =~= g0);
                        // no completion extends the grid with d placed here, so no
                        // completion of the puzzle puts d in this cell
                        assert forall|s: Seq<Seq<usize>>|
                            #[trigger] is_completion(g0, s) implies !(s[row as int][col as int] < d
                                + 1) by {
                            if s[row as int][col as int] == d {
                                lemma_completion_placeable(g0, s, row as int, col as int);
                                assert(is_completion(g1, s));
                            }
                        }
                    }
                } else {
                    proof {
                        assert forall|s: Seq<Seq<usize>>|
                            #[trigger] is_completion(g0, s) implies !(s[row as int][col as int] < d
                                + 1) by {
                            if s[row as int][col as int] == d {
                                lemma_completion_placeable(g0, s, row as int, col as int);
                                assert(no_conflict(g0, row as int, col as int, d));
                            }
                        }
                    }
                }
                d += 1;
            }
            proof {
                assert forall|s: Seq<Seq<usize>>| !#[trigger] is_completion(g0, s) by {
                    if is_completion(g0, s) {
                        lemma_completion_placeable(g0, s, row as int, col as int);
                    }
                }
            }
            false
        },
    }
}

/// The chronological backtracking strategy: no SAT machinery, the grid itself
/// is searched. It is deterministic: the returned grid is the row-major,
/// digit-ascending lexicographically smallest completion.
#[derive(Default)]
pub struct BacktrackingSudokuSolver;

impl SudokuSolver for BacktrackingSudokuSolver {
    fn solve(&mut self, puzzle: &Grid) -> (r: Option<Grid>)
        ensures
            (match r {
                Some(g) => is_completion(gv(*puzzle), gv(g)) && (forall|s: Seq<Seq<usize>>|
                    #[trigger] is_completion(gv(*puzzle), s) ==> lex_le(gv(g), s)),
                None => forall|s: Seq<Seq<usize>>| !#[trigger] is_completion(gv(*puzzle), s),
            }),
    {
        if !crate::grid::grid_consistent(puzzle) {
            proof {
                assert forall|s: Seq<Seq<usize>>| !#[trigger] is_completion(gv(*puzzle), s) by {
                    if is_completion(gv(*puzzle), s) {
                        let p = gv(*puzzle);
                        assert forall|r1: int, c1: int, r2: int, c2: int|
                            #![trigger p[r1][c1], p[r2][c2]]
                            0 <= r1 < 9 && 0 <= c1 < 9 && 0 <= r2 < 9 && 0 <= c2 < 9
                                && !(r1 == r2 && c1 == c2) && same_unit(r1, c1, r2, c2)
                                && p[r1][c1] != 0
                                implies p[r1][c1] != p[r2][c2] by {
                            assert(s[r1][c1] == p[r1][c1]);
                            if p[r2][c2] != 0 {
                                assert(s[r2][c2] == p[r2][c2]);
                                assert(s[r1][c1] != s[r2][c2]);
                            }
                        }
                        assert(consistent(p));
                    }
                }
            }
            return None;
        }
        let mut work: Grid = *puzzle;
        if solve_grid(&mut work) {
            Some(work)
        } else {
            None
        }
    }
}

} // verus!
