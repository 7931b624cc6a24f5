use vstd::prelude::*;

verus! {

/// A Sudoku board: 9 rows of 9 entries. `0` marks an empty cell, `1..=9` a digit.
pub type Grid = [[usize; 9]; 9];

/// The board as a mathematical sequence of rows.
pub open spec fn gv(g: Grid) -> Seq<Seq<usize>> {
    g@.map_values(|row: [usize; 9]| row@)
}

/// The right shape: 9 rows of 9 entries each.
pub open spec fn grid_shaped(s: Seq<Seq<usize>>) -> bool {
    s.len() == 9 && (forall|r: int| 0 <= r < 9 ==> (#[trigger] s[r]).len() == 9)
}

/// Well-formed: the right shape, and every entry in `0..=9`.
pub open spec fn grid_wf(s: Seq<Seq<usize>>) -> bool {
    grid_shaped(s) && (forall|r: int, c: int|
        0 <= r < 9 && 0 <= c < 9 ==> #[trigger] s[r][c] <= 9)
}

/// The two cells lie in the same row, the same column, or the same aligned 3x3 box.
pub open spec fn same_unit(r1: int, c1: int, r2: int, c2: int) -> bool {
    r1 == r2 || c1 == c2 || (r1 / 3 == r2 / 3 && c1 / 3 == c2 / 3)
}

/// Consistent: no two distinct cells of one unit hold the same nonzero digit.
pub open spec fn consistent(s: Seq<Seq<usize>>) -> bool {
    forall|r1: int, c1: int, r2: int, c2: int|
        #![trigger s[r1][c1], s[r2][c2]]
        0 <= r1 < 9 && 0 <= c1 < 9 && 0 <= r2 < 9 && 0 <= c2 < 9
            && !(r1 == r2 && c1 == c2) && same_unit(r1, c1, r2, c2) && s[r1][c1] != 0
            ==> s[r1][c1] != s[r2][c2]
}

/// Full: no empty cell is left.
pub open spec fn full(s: Seq<Seq<usize>>) -> bool {
    forall|r: int, c: int| 0 <= r < 9 && 0 <= c < 9 ==> #[trigger] s[r][c] != 0
}

/// Complete: well-formed, consistent and full.
pub open spec fn complete(s: Seq<Seq<usize>>) -> bool {
    grid_wf(s) && consistent(s) && full(s)
}

/// `s` keeps every clue of `p`: wherever `p` holds a nonzero digit, `s` agrees.
pub open spec fn extends(p: Seq<Seq<usize>>, s: Seq<Seq<usize>>) -> bool {
    forall|r: int, c: int|
        0 <= r < 9 && 0 <= c < 9 && #[trigger] p[r][c] != 0 ==> s[r][c] == #[trigger] p[r][c]
}

/// A completion of the puzzle `p`: a complete grid that keeps every clue of `p`.
pub open spec fn is_completion(p: Seq<Seq<usize>>, s: Seq<Seq<usize>>) -> bool {
    complete(s) && extends(p, s)
}

/// Empty cells among the first `n` entries of one row.
pub open spec fn zeros_in_row(row: Seq<usize>, n: int) -> int
    decreases n,
{
    if n <= 0 {
        0
    } else {
        zeros_in_row(row, n - 1) + if row[n - 1] == 0 {
            1int
        } else {
            0int
        }
    }
}

/// Empty cells in the first `r` rows.
pub open spec fn zeros_up_to(s: Seq<Seq<usize>>, r: int) -> int
    decreases r,
{
    if r <= 0 {
        0
    } else {
        zeros_up_to(s, r - 1) + zeros_in_row(s[r - 1], 9)
    }
}

/// Empty cells of the whole grid.
pub open spec fn count_zeros(s: Seq<Seq<usize>>) -> int {
    zeros_up_to(s, 9)
}

/// Cell (r1, c1) comes strictly before (r2, c2) in row-major scan order.
pub open spec fn scan_before(r1: int, c1: int, r2: int, c2: int) -> bool {
    r1 < r2 || (r1 == r2 && c1 < c2)
}

/// The two grids agree on every cell strictly before (r, c) in scan order.
pub open spec fn agree_before(s1: Seq<Seq<usize>>, s2: Seq<Seq<usize>>, r: int, c: int) -> bool {
    forall|r2: int, c2: int|
        #![trigger s1[r2][c2], s2[r2][c2]]
        0 <= r2 < 9 && 0 <= c2 < 9 && scan_before(r2, c2, r, c) ==> s1[r2][c2] == s2[r2][c2]
}

/// Strictly smaller in row-major, digit-ascending order: at the first cell
/// where the grids differ, `s1` holds the smaller entry.
pub open spec fn lex_lt(s1: Seq<Seq<usize>>, s2: Seq<Seq<usize>>) -> bool {
    exists|r: int, c: int|
        0 <= r < 9 && 0 <= c < 9 && #[trigger] agree_before(s1, s2, r, c) && s1[r][c] < s2[r][c]
}

/// No later in row-major, digit-ascending order.
pub open spec fn lex_le(s1: Seq<Seq<usize>>, s2: Seq<Seq<usize>>) -> bool {
    s1 == s2 || lex_lt(s1, s2)
}

/// The sample puzzle the application offers.
pub fn default_puzzle() -> (g: Grid)
    ensures
        grid_wf(gv(g)),
        (gv(g) =~~= seq![
            seq![0usize, 3, 6, 0, 0, 0, 9, 0, 0],
            seq![1usize, 0, 0, 5, 3, 0, 2, 0, 0],
            seq![0usize, 0, 4, 0, 0, 0, 0, 0, 6],
            seq![0usize, 4, 7, 0, 0, 0, 0, 5, 3],
            seq![0usize, 0, 0, 0, 0, 8, 0, 6, 9],
            seq![6usize, 9, 0, 0, 4, 0, 0, 0, 0],
            seq![0usize, 0, 0, 8, 0, 7, 0, 0, 1],
            seq![0usize, 0, 2, 0, 0, 0, 0, 0, 4],
            seq![0usize, 8, 5, 0, 0, 0, 0, 2, 0],
        ]),
{
    [
        [0, 3, 6, 0, 0, 0, 9, 0, 0],
        [1, 0, 0, 5, 3, 0, 2, 0, 0],
        [0, 0, 4, 0, 0, 0, 0, 0, 6],
        [0, 4, 7, 0, 0, 0, 0, 5, 3],
        [0, 0, 0, 0, 0, 8, 0, 6, 9],
        [6, 9, 0, 0, 4, 0, 0, 0, 0],
        [0, 0, 0, 8, 0, 7, 0, 0, 1],
        [0, 0, 2, 0, 0, 0, 0, 0, 4],
        [0, 8, 5, 0, 0, 0, 0, 2, 0],
    ]
}

/// Checks that every entry of the board is in `0..=9`.
pub fn grid_well_formed(g: &Grid) -> (b: bool)
    ensures
        b == grid_wf(gv(*g)),
{
    let mut r: usize = 0;
    while r < 9
        invariant
            r <= 9,
            forall|r2: int, c2: int|
                0 <= r2 < r && 0 <= c2 < 9 ==> #[trigger] gv(*g)[r2][c2] <= 9,
        decreases 9 - r,
    {
        let mut c: usize = 0;
        while c < 9
            invariant
                r < 9,
                c <= 9,
                forall|r2: int, c2: int|
                    0 <= r2 < r && 0 <= c2 < 9 ==> #[trigger] gv(*g)[r2][c2] <= 9,
                forall|c2: int| 0 <= c2 < c ==> #[trigger] gv(*g)[r as int][c2] <= 9,
            decreases 9 - c,
        {
            if g[r][c] > 9 {
                assert(gv(*g)[r as int][c as int] > 9);
                return false;
            }
            c += 1;
        }
        r += 1;
    }
    true
}

/// Checks that no two distinct cells of one unit hold the same nonzero digit.
pub fn grid_consistent(g: &Grid) -> (b: bool)
    ensures
        b == consistent(gv(*g)),
{
    let mut i: usize = 0;
    while i < 81
        invariant
            i <= 81,
            forall|r1: int, c1: int, r2: int, c2: int|
                #![trigger gv(*g)[r1][c1], gv(*g)[r2][c2]]
                0 <= r1 < 9 && 0 <= c1 < 9 && 0 <= r2 < 9 && 0 <= c2 < 9
                    && r1 * 9 + c1 < i
                    && !(r1 == r2 && c1 == c2) && same_unit(r1, c1, r2, c2)
                    && gv(*g)[r1][c1] != 0
                    ==> gv(*g)[r1][c1] != gv(*g)[r2][c2],
        decreases 81 - i,
    {
        let r1 = i / 9;
        let c1 = i % 9;
        let d = g[r1][c1];
        if d != 0 {
            let mut j: usize = 0;
            while j < 81
                invariant
                    j <= 81,
                    i < 81,
                    r1 == i / 9,
                    c1 == i % 9,
                    d == gv(*g)[r1 as int][c1 as int],
                    d != 0,
                    forall|r2: int, c2: int|
                        #![trigger gv(*g)[r2][c2]]
                        0 <= r2 < 9 && 0 <= c2 < 9 && r2 * 9 + c2 < j
                            && !(r2 == r1 && c2 == c1) && same_unit(r1 as int, c1 as int, r2, c2)
                            ==> d != gv(*g)[r2][c2],
                decreases 81 - j,
            {
                let r2 = j / 9;
                let c2 = j % 9;
                if !(r2 == r1 && c2 == c1) {
                    let in_unit = r2 == r1 || c2 == c1 || (r2 / 3 == r1 / 3 && c2 / 3 == c1 / 3);
                    if in_unit && g[r2][c2] == d {
                        proof {
                            let ra = r1 as int;
                            let ca = c1 as int;
                            let rb = r2 as int;
                            let cb = c2 as int;
                            assert(gv(*g)[ra][ca] != 0);
                            assert(same_unit(ra, ca, rb, cb));
                            assert(gv(*g)[ra][ca] == gv(*g)[rb][cb]);
                            assert(!consistent(gv(*g)));
                        }
                        return false;
                    }
                }
                j += 1;
            }
        } else {
            assert(forall|r2: int, c2: int|
                0 <= r2 < 9 && 0 <= c2 < 9
                    && !(r2 == r1 as int && c2 == c1 as int)
                    && same_unit(r1 as int, c1 as int, r2, c2)
                    && gv(*g)[r1 as int][c1 as int] != 0
                    ==> gv(*g)[r1 as int][c1 as int] != #[trigger] gv(*g)[r2][c2]);
        }
        i += 1;
    }
    true
}

} // verus!
