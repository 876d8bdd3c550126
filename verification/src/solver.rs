//! The backtracking solver.
//!
//! `solve` fills the empty cells of a grid by depth-first search: it
//! branches on the empty cell with the fewest candidate digits, places a
//! candidate, keeps it only while the grid stays valid, and undoes the
//! placement when no completion follows.  The contract states both
//! directions: a solvable grid comes back complete and valid, and an
//! unsolvable grid comes back unchanged (hence still incomplete).

use vstd::prelude::*;

use crate::grid::allowed;
use crate::grid::cell;
use crate::grid::col_ok;
use crate::grid::complete;
use crate::grid::entry_ok;
use crate::grid::row_ok;
use crate::grid::same_box;
use crate::grid::valid;
use crate::grid::wf_grid;
use crate::grid::Sudoku;

verus! {

/// `s` fills in `g`: wherever `g` already holds a non-zero digit, `s`
/// holds the same digit.
pub open spec fn extends(g: Seq<u8>, s: Seq<u8>) -> bool {
    forall|k: int| 0 <= k < 81 && g[k] != 0 ==> s[k] == g[k]
}

/// `s` is a solution of the puzzle `g`: a well-formed, complete, valid
/// grid that fills in `g`.
pub open spec fn is_solution(g: Seq<u8>, s: Seq<u8>) -> bool {
    &&& wf_grid(s)
    &&& complete(s)
    &&& valid(s)
    &&& extends(g, s)
}

/// Some solution of `g` exists.
pub open spec fn solvable(g: Seq<u8>) -> bool {
    exists|s: Seq<u8>| is_solution(g, s)
}

/// The number of empty cells among the first `n` cells of `g`.
pub open spec fn empty_count(g: Seq<u8>, n: int) -> nat
    decreases n,
{
    if n <= 0 {
        0
    } else {
        empty_count(g, n - 1) + (if g[n - 1] == 0 {
            1nat
        } else {
            0nat
        })
    }
}

/// Grids that agree on their first `n` cells have the same number of
/// empty cells among them.
proof fn lemma_empty_count_agree(g1: Seq<u8>, g2: Seq<u8>, n: int)
    requires
        forall|i: int| 0 <= i < n ==> g1[i] == g2[i],
    ensures
        empty_count(g1, n) == empty_count(g2, n),
    decreases n,
{
    if n > 0 {
        lemma_empty_count_agree(g1, g2, n - 1);
    }
}

/// Filling an empty cell lowers the number of empty cells by one.
proof fn lemma_empty_count_update(g: Seq<u8>, k: int, v: u8, n: int)
    requires
        0 <= k < n <= g.len(),
        g[k] == 0,
        v != 0,
    ensures
        empty_count(g.update(k, v), n) + 1 == empty_count(g, n),
    decreases n,
{
    if k == n - 1 {
        lemma_empty_count_agree(g.update(k, v), g, n - 1);
    } else {
        lemma_empty_count_update(g, k, v, n - 1);
    }
}

/// A grid that a valid grid fills in is itself valid: any duplicate among
/// its non-zero digits would persist in the filled-in grid.
proof fn lemma_extends_valid(g: Seq<u8>, s: Seq<u8>)
    requires
        g.len() == 81,
        s.len() == 81,
        valid(s),
        extends(g, s),
    ensures
        valid(g),
{
    assert forall|r: int, c1: int, c2: int|
        0 <= r < 9 && 0 <= c1 < 9 && 0 <= c2 < 9 && c1 != c2 && cell(g, r, c1) != 0 && cell(
            g,
            r,
            c2,
        ) == cell(g, r, c1) implies false by {
        assert(row_ok(s, r));
        assert(s[r * 9 + c1] == g[r * 9 + c1]);
        assert(s[r * 9 + c2] == g[r * 9 + c2]);
        assert(cell(s, r, c1) != 0 && cell(s, r, c2) == cell(s, r, c1));
    }
    assert forall|c: int, r1: int, r2: int|
        0 <= c < 9 && 0 <= r1 < 9 && 0 <= r2 < 9 && r1 != r2 && cell(g, r1, c) != 0 && cell(
            g,
            r2,
            c,
        ) == cell(g, r1, c) implies false by {
        assert(col_ok(s, c));
        assert(s[r1 * 9 + c] == g[r1 * 9 + c]);
        assert(s[r2 * 9 + c] == g[r2 * 9 + c]);
        assert(cell(s, r1, c) != 0 && cell(s, r2, c) == cell(s, r1, c));
    }
    assert forall|r1: int, c1: int, r2: int, c2: int|
        0 <= r1 < 9 && 0 <= c1 < 9 && 0 <= r2 < 9 && 0 <= c2 < 9 && same_box(r1, c1, r2, c2) && !(
        r1 == r2 && c1 == c2) && cell(g, r1, c1) != 0 && cell(g, r2, c2) == cell(
            g,
            r1,
            c1,
        ) implies false by {
        assert(s[r1 * 9 + c1] == g[r1 * 9 + c1]);
        assert(s[r2 * 9 + c2] == g[r2 * 9 + c2]);
        assert(cell(s, r1, c1) != 0 && cell(s, r2, c2) == cell(s, r1, c1));
    }
}

/// A complete grid equals any grid that fills it in.
proof fn lemma_complete_extends_eq(g: Seq<u8>, s: Seq<u8>)
    requires
        g.len() == 81,
        s.len() == 81,
        complete(g),
        extends(g, s),
    ensures
        g == s,
{
    assert(g =~= s);
}

/// The digit a solution places in an empty cell is a candidate of that
/// cell: it is absent from the cell's row, column, and subgrid, since the
/// solution holds it at the cell itself and repeats no digit.
proof fn lemma_solution_digit_allowed(g: Seq<u8>, s: Seq<u8>, r: int, c: int)
    requires
        wf_grid(g),
        is_solution(g, s),
        0 <= r < 9,
        0 <= c < 9,
        cell(g, r, c) == 0,
    ensures
        allowed(g, r, c, cell(s, r, c)),
{
    let v = cell(s, r, c);
    assert(1 <= v <= 9);
    assert forall|c2: int| 0 <= c2 < 9 implies cell(g, r, c2) != v by {
        if cell(g, r, c2) == v {
            assert(c2 != c);
            assert(row_ok(s, r));
            assert(s[r * 9 + c2] == g[r * 9 + c2]);
            assert(cell(s, r, c2) == v && cell(s, r, c) == v);
        }
    }
    assert forall|r2: int| 0 <= r2 < 9 implies cell(g, r2, c) != v by {
        if cell(g, r2, c) == v {
            assert(r2 != r);
            assert(col_ok(s, c));
            assert(s[r2 * 9 + c] == g[r2 * 9 + c]);
            assert(cell(s, r2, c) == v && cell(s, r, c) == v);
        }
    }
    assert forall|r2: int, c2: int|
        0 <= r2 < 9 && 0 <= c2 < 9 && same_box(r, c, r2, c2) implies cell(g, r2, c2) != v by {
        if cell(g, r2, c2) == v {
            assert(!(r2 == r && c2 == c));
            assert(s[r2 * 9 + c2] == g[r2 * 9 + c2]);
            assert(cell(s, r2, c2) == v && cell(s, r, c) == v);
        }
    }
}

/// Solves the puzzle by backtracking search.
///
/// On a solvable grid the result is a complete, valid grid that fills in
/// the input; on anything else the input comes back unchanged (a complete
/// input returns at once, and a fruitless search undoes every placement).
///
/// The candidates of a cell are tried in ascending digit order, so of a
/// puzzle with several solutions the search finds a fixed one.
#[verifier::loop_isolation(false)]
pub fn solve(sudoku: Sudoku) -> (solved: Sudoku)
    requires
        sudoku.wf(),
    ensures
        solved.wf(),
        complete(sudoku@) ==> solved@ == sudoku@,
        !complete(solved@) ==> solved@ == sudoku@,
        !complete(sudoku@) && complete(solved@) ==> valid(solved@) && extends(sudoku@, solved@),
        solvable(sudoku@) ==> complete(solved@) && valid(solved@),
        !complete(sudoku@) && !solvable(sudoku@) ==> !complete(solved@),
    decreases empty_count(sudoku@, 81),
{
    let ghost g0 = sudoku@;
    if sudoku.is_complete() {
        proof {
            if solvable(g0) {
                let s = choose|s: Seq<u8>| is_solution(g0, s);
                lemma_complete_extends_eq(g0, s);
            }
        }
        return sudoku;
    }
    let options = sudoku.get_options();
    if options.len() == 0 {
        // One entry exists per empty cell, so this dead-end signal of the
        // search cannot fire on an incomplete grid.
        return sudoku;
    }
    let pos = options[0].0;
    let r = pos.0;
    let c = pos.1;
    proof {
        assert(entry_ok(g0, options@[0]));
    }
    let ghost cands_seq = options@[0].1@;
    let ghost s_sol = choose|s: Seq<u8>| is_solution(g0, s);
    let ghost d_sol = cell(s_sol, r as int, c as int);
    proof {
        if solvable(g0) {
            lemma_solution_digit_allowed(g0, s_sol, r as int, c as int);
            assert(cands_seq.contains(d_sol));
        }
    }
    let mut cur = sudoku;
    let mut i: usize = 0;
    while i < options[0].1.len()
        invariant
            cur.wf(),
            i <= cands_seq.len(),
            forall|k: int| 0 <= k < 81 && k != r * 9 + c ==> #[trigger] cur@[k] == g0[k],
            solvable(g0) ==> exists|jj: int|
                i <= jj < cands_seq.len() && #[trigger] cands_seq[jj] == d_sol,
        decreases cands_seq.len() - i,
    {
        let n = options[0].1[i];
        proof {
            assert(cands_seq.contains(cands_seq[i as int]));
            assert(allowed(g0, r as int, c as int, n));
        }
        cur.set_cell(r, c, n);
        let ghost placed = cur@;
        proof {
            assert(placed =~= g0.update(r * 9 + c, n));
            lemma_empty_count_update(g0, r * 9 + c, n, 81);
        }
        let was_valid = cur.is_valid();
        if was_valid {
            cur = solve(cur);
            if cur.is_complete() {
                proof {
                    assert(extends(g0, placed));
                    if !complete(placed) {
                        assert(valid(cur@) && extends(placed, cur@));
                        assert forall|k: int| 0 <= k < 81 && g0[k] != 0 implies cur@[k]
                            == g0[k] by {
                            assert(placed[k] == g0[k]);
                        }
                    } else {
                        assert(cur@ == placed);
                    }
                    assert(is_solution(g0, cur@));
                }
                return cur;
            }
        }
        proof {
            // The digit the solution puts at this cell cannot fail here:
            // placing it keeps the grid valid and solvable, so the branch
            // above would have returned.  Hence it still lies ahead.
            if solvable(g0) && cands_seq[i as int] == d_sol {
                assert(extends(placed, s_sol));
                lemma_extends_valid(placed, s_sol);
                assert(valid(placed));
                assert(was_valid);
                assert(is_solution(placed, s_sol));
                assert(solvable(placed));
                assert(false);
            }
            if solvable(g0) {
                let jj = choose|jj: int|
                    i <= jj < cands_seq.len() && #[trigger] cands_seq[jj] == d_sol;
                assert(jj != i);
                assert(i + 1 <= jj < cands_seq.len() && cands_seq[jj] == d_sol);
            }
        }
        i = i + 1;
    }
    cur.set_cell(r, c, 0);
    proof {
        assert(cur@ =~= g0);
    }
    cur
}

} // verus!
