//! The puzzle grid: a 9x9 matrix of cell values in `0..=9` (`0` = empty),
//! stored row-major, together with the structural queries the solver needs:
//! completeness, validity, and candidate enumeration.

use vstd::prelude::*;

verus! {

/// One Sudoku puzzle state.  The 81 cells are stored row-major: the cell in
/// row `r`, column `c` is at index `r * 9 + c`.
pub struct Sudoku {
    cells: Vec<u8>,
}

impl View for Sudoku {
    type V = Seq<u8>;

    closed spec fn view(&self) -> Seq<u8> {
        self.cells@
    }
}

/// A well-formed grid: exactly 81 cells, each holding a value in `0..=9`.
pub open spec fn wf_grid(g: Seq<u8>) -> bool {
    &&& g.len() == 81
    &&& forall|k: int| 0 <= k < 81 ==> g[k] <= 9
}

/// The value of the cell in row `r`, column `c`.
pub open spec fn cell(g: Seq<u8>, r: int, c: int) -> u8 {
    g[r * 9 + c]
}

/// A complete grid has no empty cell.
pub open spec fn complete(g: Seq<u8>) -> bool {
    forall|k: int| 0 <= k < 81 ==> g[k] != 0
}

/// No non-zero value occurs twice in row `r`.
pub open spec fn row_ok(g: Seq<u8>, r: int) -> bool {
    forall|c1: int, c2: int|
        0 <= c1 < 9 && 0 <= c2 < 9 && c1 != c2 && cell(g, r, c1) != 0
            ==> cell(g, r, c1) != cell(g, r, c2)
}

/// No non-zero value occurs twice in column `c`.
pub open spec fn col_ok(g: Seq<u8>, c: int) -> bool {
    forall|r1: int, r2: int|
        0 <= r1 < 9 && 0 <= r2 < 9 && r1 != r2 && cell(g, r1, c) != 0
            ==> cell(g, r1, c) != cell(g, r2, c)
}

/// Two cell positions lie in the same 3x3 subgrid.
pub open spec fn same_box(r1: int, c1: int, r2: int, c2: int) -> bool {
    r1 / 3 == r2 / 3 && c1 / 3 == c2 / 3
}

/// No non-zero value occurs twice in any 3x3 subgrid.
pub open spec fn boxes_ok(g: Seq<u8>) -> bool {
    forall|r1: int, c1: int, r2: int, c2: int|
        0 <= r1 < 9 && 0 <= c1 < 9 && 0 <= r2 < 9 && 0 <= c2 < 9
            && same_box(r1, c1, r2, c2) && !(r1 == r2 && c1 == c2)
            && #[trigger] cell(g, r1, c1) != 0
            ==> cell(g, r1, c1) != #[trigger] cell(g, r2, c2)
}

/// A valid grid: no non-zero value is repeated in any row, column, or
/// 3x3 subgrid.  Empty cells never count as duplicates.
pub open spec fn valid(g: Seq<u8>) -> bool {
    &&& forall|r: int| 0 <= r < 9 ==> row_ok(g, r)
    &&& forall|c: int| 0 <= c < 9 ==> col_ok(g, c)
    &&& boxes_ok(g)
}

/// Row coordinate of the `k`-th cell (row-major within the subgrid) of the
/// 3x3 subgrid with index `bi` (subgrids numbered row-major, `0..9`).
spec fn box_row(bi: int, k: int) -> int {
    (bi / 3) * 3 + k / 3
}

/// Column coordinate of the `k`-th cell of subgrid `bi`.
spec fn box_col(bi: int, k: int) -> int {
    (bi % 3) * 3 + k % 3
}

/// No non-zero value occurs twice among the nine cells of subgrid `bi`.
spec fn box_ok(g: Seq<u8>, bi: int) -> bool {
    forall|k1: int, k2: int|
        0 <= k1 < 9 && 0 <= k2 < 9 && k1 != k2
            && #[trigger] cell(g, box_row(bi, k1), box_col(bi, k1)) != 0
            ==> cell(g, box_row(bi, k1), box_col(bi, k1))
                != #[trigger] cell(g, box_row(bi, k2), box_col(bi, k2))
}

/// The subgrid coordinates cover exactly the cells of subgrid `bi`, and
/// distinct `k` give distinct cells of one and the same subgrid.
proof fn lemma_box_coords(bi: int, k: int)
    requires
        0 <= bi < 9,
        0 <= k < 9,
    ensures
        0 <= box_row(bi, k) < 9,
        0 <= box_col(bi, k) < 9,
        box_row(bi, k) / 3 == bi / 3,
        box_col(bi, k) / 3 == bi % 3,
        bi == (box_row(bi, k) / 3) * 3 + box_col(bi, k) / 3,
        k == (box_row(bi, k) % 3) * 3 + box_col(bi, k) % 3,
{
}

/// Every cell position is reached by the subgrid coordinates: the cell at
/// `(r, c)` is cell `(r % 3) * 3 + c % 3` of subgrid `(r / 3) * 3 + c / 3`.
proof fn lemma_coords_box(r: int, c: int)
    requires
        0 <= r < 9,
        0 <= c < 9,
    ensures
        0 <= (r / 3) * 3 + c / 3 < 9,
        0 <= (r % 3) * 3 + c % 3 < 9,
        box_row((r / 3) * 3 + c / 3, (r % 3) * 3 + c % 3) == r,
        box_col((r / 3) * 3 + c / 3, (r % 3) * 3 + c % 3) == c,
{
}

/// If every subgrid passes the per-subgrid check, no two distinct cells of
/// a common subgrid hold the same non-zero value, and conversely a failing
/// subgrid exhibits such a pair.
proof fn lemma_boxes_ok_iff(g: Seq<u8>)
    ensures
        (forall|bi: int| 0 <= bi < 9 ==> box_ok(g, bi)) <==> boxes_ok(g),
{
    if forall|bi: int| 0 <= bi < 9 ==> box_ok(g, bi) {
        assert forall|r1: int, c1: int, r2: int, c2: int|
            0 <= r1 < 9 && 0 <= c1 < 9 && 0 <= r2 < 9 && 0 <= c2 < 9
                && same_box(r1, c1, r2, c2) && !(r1 == r2 && c1 == c2)
                && #[trigger] cell(g, r1, c1) != 0
            implies cell(g, r1, c1) != #[trigger] cell(g, r2, c2) by {
            let bi = (r1 / 3) * 3 + c1 / 3;
            let k1 = (r1 % 3) * 3 + c1 % 3;
            let k2 = (r2 % 3) * 3 + c2 % 3;
            lemma_coords_box(r1, c1);
            lemma_coords_box(r2, c2);
            assert(box_ok(g, bi));
            assert(cell(g, box_row(bi, k1), box_col(bi, k1)) != 0);
        }
    }
    if boxes_ok(g) {
        assert forall|bi: int| 0 <= bi < 9 implies box_ok(g, bi) by {
            assert forall|k1: int, k2: int|
                0 <= k1 < 9 && 0 <= k2 < 9 && k1 != k2
                    && #[trigger] cell(g, box_row(bi, k1), box_col(bi, k1)) != 0
                implies cell(g, box_row(bi, k1), box_col(bi, k1))
                    != #[trigger] cell(g, box_row(bi, k2), box_col(bi, k2)) by {
                lemma_box_coords(bi, k1);
                lemma_box_coords(bi, k2);
            }
        }
    }
}

/// Digit `v` may be placed in the empty cell at row `r`, column `c`: it is
/// in `1..=9` and absent from that cell's row, column, and 3x3 subgrid.
pub open spec fn allowed(g: Seq<u8>, r: int, c: int, v: u8) -> bool {
    &&& 1 <= v <= 9
    &&& forall|c2: int| 0 <= c2 < 9 ==> cell(g, r, c2) != v
    &&& forall|r2: int| 0 <= r2 < 9 ==> cell(g, r2, c) != v
    &&& forall|r2: int, c2: int|
        0 <= r2 < 9 && 0 <= c2 < 9 && same_box(r, c, r2, c2) ==> cell(g, r2, c2) != v
}

/// `cs` is the candidate set of the cell at `(r, c)`: the digits `1..=9`
/// absent from that cell's row, column, and subgrid, listed in strictly
/// ascending order.
pub open spec fn cands_ok(g: Seq<u8>, r: int, c: int, cs: Seq<u8>) -> bool {
    &&& cs.len() <= 9
    &&& forall|i: int, j: int| 0 <= i < j < cs.len() ==> cs[i] < cs[j]
    &&& forall|v: u8| cs.contains(v) <==> allowed(g, r, c, v)
}

/// A candidate entry is well formed for grid `g`: its position is an empty
/// cell in range, and its digit list is that cell's candidate set.
pub open spec fn entry_ok(g: Seq<u8>, e: ((usize, usize), Vec<u8>)) -> bool {
    &&& e.0.0 < 9
    &&& e.0.1 < 9
    &&& cell(g, e.0.0 as int, e.0.1 as int) == 0
    &&& cands_ok(g, e.0.0 as int, e.0.1 as int, e.1@)
}

/// The number of candidate digits of an entry.
pub open spec fn entry_size(e: ((usize, usize), Vec<u8>)) -> int {
    e.1@.len() as int
}

/// The row-major index of an entry's position: its discovery rank.
pub open spec fn entry_pos_index(e: ((usize, usize), Vec<u8>)) -> int {
    e.0.0 * 9 + e.0.1
}

impl Sudoku {
    /// The grid holds exactly 81 cells, each with a value in `0..=9`.
    pub open spec fn wf(&self) -> bool {
        wf_grid(self@)
    }

    /// Builds a grid from 81 row-major cell values, each in `0..=9`
    /// (`0` = empty).  Rejects any other input.
    pub fn from_digits(values: &Vec<u8>) -> (result: Option<Sudoku>)
        ensures
            result is Some <==> (values@.len() == 81
                && forall|k: int| 0 <= k < 81 ==> values@[k] <= 9),
            result matches Some(s) ==> s.wf() && s@ == values@,
    {
        if values.len() != 81 {
            return None;
        }
        let mut k: usize = 0;
        while k < 81
            invariant
                k <= 81,
                values@.len() == 81,
                forall|j: int| 0 <= j < k ==> values@[j] <= 9,
            decreases 81 - k,
        {
            if values[k] > 9 {
                return None;
            }
            k = k + 1;
        }
        Some(Sudoku { cells: values.clone() })
    }

    /// Writes value `v` into the cell in row `r`, column `c`.
    pub fn set_cell(&mut self, r: usize, c: usize, v: u8)
        requires
            old(self).wf(),
            r < 9,
            c < 9,
            v <= 9,
        ensures
            final(self).wf(),
            final(self)@ == old(self)@.update(r * 9 + c, v),
    {
        self.cells[r * 9 + c] = v;
    }

    /// Reads the cell in row `r`, column `c`.
    pub fn cell_at(&self, r: usize, c: usize) -> (v: u8)
        requires
            self.wf(),
            r < 9,
            c < 9,
        ensures
            v == cell(self@, r as int, c as int),
    {
        self.cells[r * 9 + c]
    }

    /// True iff digit `v` is absent from the row, column, and subgrid of
    /// the cell at `(r, c)`.
    fn digit_allowed(&self, r: usize, c: usize, v: u8) -> (b: bool)
        requires
            self.wf(),
            r < 9,
            c < 9,
            1 <= v <= 9,
        ensures
            b == allowed(self@, r as int, c as int, v),
    {
        let mut c2: usize = 0;
        while c2 < 9
            invariant
                self.wf(),
                r < 9,
                c < 9,
                c2 <= 9,
                forall|j: int| 0 <= j < c2 ==> cell(self@, r as int, j) != v,
            decreases 9 - c2,
        {
            if self.cells[r * 9 + c2] == v {
                assert(cell(self@, r as int, c2 as int) == v);
                return false;
            }
            c2 = c2 + 1;
        }
        let mut r2: usize = 0;
        while r2 < 9
            invariant
                self.wf(),
                r < 9,
                c < 9,
                r2 <= 9,
                forall|j: int| 0 <= j < r2 ==> cell(self@, j, c as int) != v,
            decreases 9 - r2,
        {
            if self.cells[r2 * 9 + c] == v {
                assert(cell(self@, r2 as int, c as int) == v);
                return false;
            }
            r2 = r2 + 1;
        }
        let br = (r / 3) * 3;
        let bc = (c / 3) * 3;
        let mut dr: usize = 0;
        while dr < 3
            invariant
                self.wf(),
                r < 9,
                c < 9,
                br == (r / 3) * 3,
                bc == (c / 3) * 3,
                dr <= 3,
                forall|rr: int, cc: int|
                    br <= rr < br + dr && bc <= cc < bc + 3 ==> cell(self@, rr, cc) != v,
            decreases 3 - dr,
        {
            let mut dc: usize = 0;
            while dc < 3
                invariant
                    self.wf(),
                    r < 9,
                    c < 9,
                    br == (r / 3) * 3,
                    bc == (c / 3) * 3,
                    dr < 3,
                    dc <= 3,
                    forall|rr: int, cc: int|
                        br <= rr < br + dr && bc <= cc < bc + 3 ==> cell(self@, rr, cc) != v,
                    forall|cc: int|
                        bc <= cc < bc + dc ==> #[trigger] cell(self@, (br + dr) as int, cc) != v,
                decreases 3 - dc,
            {
                if self.cells[(br + dr) * 9 + (bc + dc)] == v {
                    assert(cell(self@, (br + dr) as int, (bc + dc) as int) == v);
                    assert(same_box(r as int, c as int, (br + dr) as int, (bc + dc) as int));
                    return false;
                }
                dc = dc + 1;
            }
            dr = dr + 1;
        }
        assert forall|r2: int, c2: int|
            0 <= r2 < 9 && 0 <= c2 < 9 && same_box(r as int, c as int, r2, c2)
            implies cell(self@, r2, c2) != v by {
            assert(br <= r2 < br + 3);
            assert(bc <= c2 < bc + 3);
        }
        true
    }

    /// The candidate set of the empty cell at `(r, c)`: all digits `1..=9`
    /// absent from its row, column, and subgrid, in ascending order.
    fn candidates_for(&self, r: usize, c: usize) -> (cs: Vec<u8>)
        requires
            self.wf(),
            r < 9,
            c < 9,
        ensures
            cands_ok(self@, r as int, c as int, cs@),
    {
        let mut cs: Vec<u8> = Vec::new();
        let mut v: u8 = 1;
        while v <= 9
            invariant
                self.wf(),
                r < 9,
                c < 9,
                1 <= v <= 10,
                cs@.len() <= v - 1,
                forall|i: int, j: int| 0 <= i < j < cs@.len() ==> cs@[i] < cs@[j],
                forall|i: int| 0 <= i < cs@.len() ==> 1 <= #[trigger] cs@[i] < v,
                forall|u: u8| cs@.contains(u) <==> (u < v && allowed(self@, r as int, c as int, u)),
            decreases 10 - v,
        {
            if self.digit_allowed(r, c, v) {
                let ghost old_cs = cs@;
                cs.push(v);
                proof {
                    assert forall|u: u8| cs@.contains(u) implies (u < v + 1 && allowed(
                        self@,
                        r as int,
                        c as int,
                        u,
                    )) by {
                        let i = choose|i: int| 0 <= i < cs@.len() && cs@[i] == u;
                        if i < old_cs.len() {
                            assert(old_cs.contains(u));
                        }
                    }
                    assert forall|u: u8| (u < v + 1 && allowed(self@, r as int, c as int, u))
                        implies cs@.contains(u) by {
                        if u < v {
                            assert(old_cs.contains(u));
                            let i = choose|i: int| 0 <= i < old_cs.len() && old_cs[i] == u;
                            assert(cs@[i] == u);
                        } else {
                            assert(cs@[cs@.len() - 1] == u);
                        }
                    }
                }
            }
            v = v + 1;
        }
        proof {
            assert forall|u: u8| cs@.contains(u) <==> allowed(self@, r as int, c as int, u) by {
                if allowed(self@, r as int, c as int, u) {
                    assert(u < 10);
                }
            }
        }
        cs
    }

    /// True iff some non-zero value occurs twice in row `r`.
    fn row_has_conflict(&self, r: usize) -> (b: bool)
        requires
            self.wf(),
            r < 9,
        ensures
            b == !row_ok(self@, r as int),
    {
        let mut c1: usize = 0;
        while c1 < 9
            invariant
                self.wf(),
                r < 9,
                c1 <= 9,
                forall|a: int, bb: int|
                    0 <= a < c1 && 0 <= bb < 9 && a != bb && cell(self@, r as int, a) != 0
                        ==> cell(self@, r as int, a) != cell(self@, r as int, bb),
            decreases 9 - c1,
        {
            let v = self.cells[r * 9 + c1];
            if v != 0 {
                let mut c2: usize = 0;
                while c2 < 9
                    invariant
                        self.wf(),
                        r < 9,
                        c1 < 9,
                        c2 <= 9,
                        v == cell(self@, r as int, c1 as int),
                        v != 0,
                        forall|bb: int|
                            0 <= bb < c2 && bb != c1
                                ==> cell(self@, r as int, c1 as int) != cell(self@, r as int, bb),
                    decreases 9 - c2,
                {
                    if c2 != c1 && self.cells[r * 9 + c2] == v {
                        assert(cell(self@, r as int, c2 as int) == v);
                        assert(!row_ok(self@, r as int));
                        return true;
                    }
                    c2 = c2 + 1;
                }
            }
            c1 = c1 + 1;
        }
        false
    }

    /// True iff some non-zero value occurs twice in column `c`.
    fn col_has_conflict(&self, c: usize) -> (b: bool)
        requires
            self.wf(),
            c < 9,
        ensures
            b == !col_ok(self@, c as int),
    {
        let mut r1: usize = 0;
        while r1 < 9
            invariant
                self.wf(),
                c < 9,
                r1 <= 9,
                forall|a: int, bb: int|
                    0 <= a < r1 && 0 <= bb < 9 && a != bb && cell(self@, a, c as int) != 0
                        ==> cell(self@, a, c as int) != cell(self@, bb, c as int),
            decreases 9 - r1,
        {
            let v = self.cells[r1 * 9 + c];
            if v != 0 {
                let mut r2: usize = 0;
                while r2 < 9
                    invariant
                        self.wf(),
                        c < 9,
                        r1 < 9,
                        r2 <= 9,
                        v == cell(self@, r1 as int, c as int),
                        v != 0,
                        forall|bb: int|
                            0 <= bb < r2 && bb != r1
                                ==> cell(self@, r1 as int, c as int) != cell(self@, bb, c as int),
                    decreases 9 - r2,
                {
                    if r2 != r1 && self.cells[r2 * 9 + c] == v {
                        assert(cell(self@, r2 as int, c as int) == v);
                        assert(!col_ok(self@, c as int));
                        return true;
                    }
                    r2 = r2 + 1;
                }
            }
            r1 = r1 + 1;
        }
        false
    }

    /// True iff some non-zero value occurs twice in subgrid `bi`.
    fn box_has_conflict(&self, bi: usize) -> (b: bool)
        requires
            self.wf(),
            bi < 9,
        ensures
            b == !box_ok(self@, bi as int),
    {
        let mut k1: usize = 0;
        while k1 < 9
            invariant
                self.wf(),
                bi < 9,
                k1 <= 9,
                forall|a: int, bb: int|
                    0 <= a < k1 && 0 <= bb < 9 && a != bb
                        && #[trigger] cell(self@, box_row(bi as int, a), box_col(bi as int, a)) != 0
                        ==> cell(self@, box_row(bi as int, a), box_col(bi as int, a))
                            != #[trigger] cell(self@, box_row(bi as int, bb), box_col(bi as int, bb)),
            decreases 9 - k1,
        {
            proof {
                lemma_box_coords(bi as int, k1 as int);
            }
            let r1 = (bi / 3) * 3 + k1 / 3;
            let c1 = (bi % 3) * 3 + k1 % 3;
            let v = self.cells[r1 * 9 + c1];
            if v != 0 {
                let mut k2: usize = 0;
                while k2 < 9
                    invariant
                        self.wf(),
                        bi < 9,
                        k1 < 9,
                        k2 <= 9,
                        r1 == box_row(bi as int, k1 as int),
                        c1 == box_col(bi as int, k1 as int),
                        v == cell(self@, r1 as int, c1 as int),
                        v != 0,
                        forall|bb: int|
                            0 <= bb < k2 && bb != k1
                                ==> cell(self@, r1 as int, c1 as int)
                                    != #[trigger] cell(self@, box_row(bi as int, bb), box_col(bi as int, bb)),
                    decreases 9 - k2,
                {
                    proof {
                        lemma_box_coords(bi as int, k2 as int);
                    }
                    let r2 = (bi / 3) * 3 + k2 / 3;
                    let c2 = (bi % 3) * 3 + k2 % 3;
                    if k2 != k1 && self.cells[r2 * 9 + c2] == v {
                        assert(cell(self@, box_row(bi as int, k2 as int), box_col(bi as int, k2 as int)) == v);
                        assert(cell(self@, box_row(bi as int, k1 as int), box_col(bi as int, k1 as int)) == v);
                        assert(!box_ok(self@, bi as int));
                        return true;
                    }
                    k2 = k2 + 1;
                }
            }
            k1 = k1 + 1;
        }
        false
    }

    /// True iff no non-zero value is repeated in any row, column, or 3x3
    /// subgrid.  Empty cells are ignored.
    pub fn is_valid(&self) -> (b: bool)
        requires
            self.wf(),
        ensures
            b == valid(self@),
    {
        proof {
            lemma_boxes_ok_iff(self@);
        }
        let mut r: usize = 0;
        while r < 9
            invariant
                self.wf(),
                r <= 9,
                forall|i: int| 0 <= i < r ==> row_ok(self@, i),
            decreases 9 - r,
        {
            if self.row_has_conflict(r) {
                assert(!valid(self@));
                return false;
            }
            r = r + 1;
        }
        let mut c: usize = 0;
        while c < 9
            invariant
                self.wf(),
                c <= 9,
                forall|i: int| 0 <= i < c ==> col_ok(self@, i),
            decreases 9 - c,
        {
            if self.col_has_conflict(c) {
                assert(!valid(self@));
                return false;
            }
            c = c + 1;
        }
        let mut bi: usize = 0;
        while bi < 9
            invariant
                self.wf(),
                bi <= 9,
                forall|i: int| 0 <= i < bi ==> box_ok(self@, i),
            decreases 9 - bi,
        {
            if self.box_has_conflict(bi) {
                proof {
                    lemma_boxes_ok_iff(self@);
                }
                assert(!valid(self@));
                return false;
            }
            bi = bi + 1;
        }
        proof {
            lemma_boxes_ok_iff(self@);
        }
        assert(forall|i: int| 0 <= i < 9 ==> row_ok(self@, i));
        assert(forall|i: int| 0 <= i < 9 ==> col_ok(self@, i));
        true
    }

    /// One candidate entry per empty cell, ordered by ascending candidate-set
    /// size (the most-constrained cell first); cells whose sets are equally
    /// small keep their row-major discovery order.
    pub fn get_options(&self) -> (opts: Vec<((usize, usize), Vec<u8>)>)
        requires
            self.wf(),
        ensures
            forall|k: int| 0 <= k < opts@.len() ==> entry_ok(self@, #[trigger] opts@[k]),
            forall|k1: int, k2: int|
                0 <= k1 < k2 < opts@.len()
                    ==> entry_size(#[trigger] opts@[k1]) <= entry_size(#[trigger] opts@[k2]),
            forall|k1: int, k2: int|
                0 <= k1 < k2 < opts@.len() && entry_size(#[trigger] opts@[k1]) == entry_size(
                    #[trigger] opts@[k2],
                ) ==> entry_pos_index(opts@[k1]) < entry_pos_index(opts@[k2]),
            forall|r: int, c: int|
                0 <= r < 9 && 0 <= c < 9 && #[trigger] cell(self@, r, c) == 0
                    ==> exists|k: int|
                    0 <= k < opts@.len() && (#[trigger] opts@[k]).0.0 == r && opts@[k].0.1 == c,
            opts@.len() == 0 <==> complete(self@),
    {
        let mut found: Vec<((usize, usize), Vec<u8>)> = Vec::new();
        let mut r: usize = 0;
        while r < 9
            invariant
                self.wf(),
                r <= 9,
                forall|k: int| 0 <= k < found@.len() ==> entry_ok(self@, #[trigger] found@[k]),
                forall|k: int|
                    0 <= k < found@.len() ==> entry_pos_index(#[trigger] found@[k]) < r * 9,
                forall|k1: int, k2: int|
                    0 <= k1 < k2 < found@.len()
                        ==> entry_pos_index(#[trigger] found@[k1]) < entry_pos_index(
                        #[trigger] found@[k2],
                    ),
                forall|rr: int, cc: int|
                    0 <= rr < r && 0 <= cc < 9 && #[trigger] cell(self@, rr, cc) == 0
                        ==> exists|k: int|
                        0 <= k < found@.len() && (#[trigger] found@[k]).0.0 == rr
                            && found@[k].0.1 == cc,
            decreases 9 - r,
        {
            let mut c: usize = 0;
            while c < 9
                invariant
                    self.wf(),
                    r < 9,
                    c <= 9,
                    forall|k: int| 0 <= k < found@.len() ==> entry_ok(self@, #[trigger] found@[k]),
                    forall|k: int|
                        0 <= k < found@.len() ==> entry_pos_index(#[trigger] found@[k]) < r * 9
                            + c,
                    forall|k1: int, k2: int|
                        0 <= k1 < k2 < found@.len()
                            ==> entry_pos_index(#[trigger] found@[k1]) < entry_pos_index(
                            #[trigger] found@[k2],
                        ),
                    forall|rr: int, cc: int|
                        0 <= rr < 9 && 0 <= cc < 9 && rr * 9 + cc < r * 9 + c
                            && #[trigger] cell(self@, rr, cc) == 0
                            ==> exists|k: int|
                            0 <= k < found@.len() && (#[trigger] found@[k]).0.0 == rr
                                && found@[k].0.1 == cc,
                decreases 9 - c,
            {
                if self.cells[r * 9 + c] == 0 {
                    assert(cell(self@, r as int, c as int) == 0);
                    let cs = self.candidates_for(r, c);
                    let ghost old_found = found@;
                    found.push(((r, c), cs));
                    proof {
                        assert(found@[old_found.len() as int].0.0 == r);
                        assert(forall|k: int|
                            0 <= k < old_found.len() ==> found@[k] == old_found[k]);
                    }
                }
                c = c + 1;
            }
            r = r + 1;
        }
        let ghost fnd = found@;
        let mut opts: Vec<((usize, usize), Vec<u8>)> = Vec::new();
        let mut s: usize = 0;
        while s <= 9
            invariant
                self.wf(),
                s <= 10,
                found@ == fnd,
                forall|k: int| 0 <= k < fnd.len() ==> entry_ok(self@, #[trigger] fnd[k]),
                forall|k1: int, k2: int|
                    0 <= k1 < k2 < fnd.len()
                        ==> entry_pos_index(#[trigger] fnd[k1]) < entry_pos_index(
                        #[trigger] fnd[k2],
                    ),
                forall|rr: int, cc: int|
                    0 <= rr < 9 && 0 <= cc < 9 && #[trigger] cell(self@, rr, cc) == 0
                        ==> exists|k: int|
                        0 <= k < fnd.len() && (#[trigger] fnd[k]).0.0 == rr && fnd[k].0.1 == cc,
                forall|k: int| 0 <= k < opts@.len() ==> entry_ok(self@, #[trigger] opts@[k]),
                forall|k: int| 0 <= k < opts@.len() ==> entry_size(#[trigger] opts@[k]) < s,
                forall|k1: int, k2: int|
                    0 <= k1 < k2 < opts@.len()
                        ==> entry_size(#[trigger] opts@[k1]) < entry_size(#[trigger] opts@[k2])
                        || (entry_size(opts@[k1]) == entry_size(opts@[k2]) && entry_pos_index(
                            opts@[k1],
                        ) < entry_pos_index(opts@[k2])),
                forall|j: int|
                    0 <= j < fnd.len() && entry_size(#[trigger] fnd[j]) < s
                        ==> exists|k: int|
                        0 <= k < opts@.len() && (#[trigger] opts@[k]).0 == fnd[j].0,
            decreases 10 - s,
        {
            let mut j: usize = 0;
            while j < found.len()
                invariant
                    self.wf(),
                    s <= 9,
                    j <= fnd.len(),
                    found@ == fnd,
                    forall|k: int| 0 <= k < fnd.len() ==> entry_ok(self@, #[trigger] fnd[k]),
                    forall|k1: int, k2: int|
                        0 <= k1 < k2 < fnd.len()
                            ==> entry_pos_index(#[trigger] fnd[k1]) < entry_pos_index(
                            #[trigger] fnd[k2],
                        ),
                    forall|k: int| 0 <= k < opts@.len() ==> entry_ok(self@, #[trigger] opts@[k]),
                    forall|k: int| 0 <= k < opts@.len() ==> entry_size(#[trigger] opts@[k]) <= s,
                    forall|k1: int, k2: int|
                        0 <= k1 < k2 < opts@.len()
                            ==> entry_size(#[trigger] opts@[k1]) < entry_size(#[trigger] opts@[k2])
                            || (entry_size(opts@[k1]) == entry_size(opts@[k2]) && entry_pos_index(
                                opts@[k1],
                            ) < entry_pos_index(opts@[k2])),
                    forall|k: int|
                        0 <= k < opts@.len() && entry_size(#[trigger] opts@[k]) == s
                            ==> exists|jj: int|
                            0 <= jj < j && entry_pos_index(opts@[k]) == entry_pos_index(
                                #[trigger] fnd[jj],
                            ),
                    forall|jj: int|
                        0 <= jj < fnd.len() && (entry_size(#[trigger] fnd[jj]) < s || (entry_size(
                            fnd[jj],
                        ) == s && jj < j)) ==> exists|k: int|
                            0 <= k < opts@.len() && (#[trigger] opts@[k]).0 == fnd[jj].0,
                decreases fnd.len() - j,
            {
                if found[j].1.len() == s {
                    let pos = found[j].0;
                    let cs = found[j].1.clone();
                    let ghost old_opts = opts@;
                    opts.push((pos, cs));
                    proof {
                        assert(cs@ == fnd[j as int].1@);
                        assert(opts@[old_opts.len() as int].0 == fnd[j as int].0);
                        assert(entry_size(opts@[old_opts.len() as int]) == s);
                        assert(entry_pos_index(opts@[old_opts.len() as int]) == entry_pos_index(
                            fnd[j as int],
                        ));
                        assert(forall|k: int|
                            0 <= k < old_opts.len() ==> opts@[k] == old_opts[k]);
                    }
                }
                j = j + 1;
            }
            s = s + 1;
        }
        proof {
            assert forall|r2: int, c2: int|
                0 <= r2 < 9 && 0 <= c2 < 9 && #[trigger] cell(self@, r2, c2) == 0
                implies exists|k: int|
                0 <= k < opts@.len() && (#[trigger] opts@[k]).0.0 == r2 && opts@[k].0.1
                    == c2 by {
                let kf = choose|k: int|
                    0 <= k < fnd.len() && (#[trigger] fnd[k]).0.0 == r2 && fnd[k].0.1 == c2;
                assert(entry_size(fnd[kf]) < 10);
                let ko = choose|k: int| 0 <= k < opts@.len() && (#[trigger] opts@[k]).0 == fnd[kf].0;
                assert(opts@[ko].0.0 == r2 && opts@[ko].0.1 == c2);
            }
            if !complete(self@) {
                let k = choose|k: int| 0 <= k < 81 && self@[k] == 0;
                assert(cell(self@, k / 9, k % 9) == self@[k]);
                assert(opts@.len() > 0);
            }
            if opts@.len() > 0 {
                assert(entry_ok(self@, opts@[0]));
                let e = opts@[0];
                assert(self@[e.0.0 * 9 + e.0.1] == 0);
            }
        }
        opts
    }

    /// True iff no cell is empty.
    pub fn is_complete(&self) -> (b: bool)
        requires
            self.wf(),
        ensures
            b == complete(self@),
    {
        let mut k: usize = 0;
        while k < 81
            invariant
                k <= 81,
                self.wf(),
                forall|j: int| 0 <= j < k ==> self@[j] != 0,
            decreases 81 - k,
        {
            if self.cells[k] == 0 {
                return false;
            }
            k = k + 1;
        }
        true
    }
}

} // verus!
