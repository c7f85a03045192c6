use vstd::prelude::*;

use crate::cell::Cell;
use crate::grid::{complete, grid_wf, indices_ok, refines_grid, Sudoku};
use crate::group::agrees;

pub mod cage;
pub mod palindrome;
pub mod registry;
pub mod set;

verus! {

/// A constraint of the puzzle, applied one group at a time: each application
/// works on the next of the rule's groups, cyclically.
pub trait Rule: Sized {
    /// The rule's state is usable: its cursor points at one of its groups and
    /// its groups are made of distinct cells of the board.
    spec fn inv(&self) -> bool;

    /// The grid after one application to `g`, or `None` on a contradiction.
    spec fn outcome(&self, g: Seq<Cell>) -> Option<Seq<Cell>>;

    /// The rule's state after one application.
    spec fn advanced(&self) -> Self;

    /// A complete grid meets every group of the rule.
    spec fn satisfied(&self, g: Seq<Cell>) -> bool;

    /// An application only narrows cells, leaves a complete grid that meets the
    /// rule as it is, and keeps every completion that meets the rule.
    proof fn lemma_outcome(&self, g: Seq<Cell>)
        requires
            self.inv(),
            grid_wf(g),
        ensures
            self.advanced().inv(),
            forall|h: Seq<Cell>| #[trigger] self.advanced().satisfied(h) == self.satisfied(h),
            self.outcome(g) is Some ==> refines_grid(g, self.outcome(g)->Some_0) && grid_wf(
                self.outcome(g)->Some_0,
            ),
            complete(g) && self.satisfied(g) ==> self.outcome(g) == Some(g),
            forall|sol: Seq<Cell>|
                #[trigger] agrees(g, sol) && self.satisfied(sol) ==> self.outcome(g) is Some && agrees(
                    self.outcome(g)->Some_0,
                    sol,
                ),
    ;

    /// Applies the rule to its next group.
    fn update_cells(&mut self, sudoku: &mut Sudoku) -> (r: Result<(), ()>)
        requires
            old(self).inv(),
            old(sudoku).wf(),
        ensures
            *final(self) == old(self).advanced(),
            r is Ok <==> old(self).outcome(old(sudoku)@) is Some,
            r is Ok ==> final(sudoku)@ == old(self).outcome(old(sudoku)@)->Some_0,
            r is Err ==> final(sudoku)@ == old(sudoku)@,
    ;

    /// Whether a complete grid meets every group of the rule.
    fn holds(&self, sudoku: &Sudoku) -> (r: bool)
        requires
            self.inv(),
            sudoku.wf(),
            complete(sudoku@),
        ensures
            r == self.satisfied(sudoku@),
    ;
}

/// Flat indices of row `u`.
pub open spec fn row_cells(u: int) -> Seq<usize> {
    Seq::new(9, |k: int| (u * 9 + k) as usize)
}

/// Flat indices of column `u`.
pub open spec fn col_cells(u: int) -> Seq<usize> {
    Seq::new(9, |k: int| (k * 9 + u) as usize)
}

/// Flat index of the `k`-th cell of box `u`, both counted row by row.
pub open spec fn box_index(u: int, k: int) -> int {
    (3 * (u / 3) + k / 3) * 9 + 3 * (u % 3) + k % 3
}

/// Flat indices of 3x3 box `u`.
pub open spec fn box_cells(u: int) -> Seq<usize> {
    Seq::new(9, |k: int| box_index(u, k) as usize)
}

/// Digit `d` stands in one of the cells `ps` of `g`.
pub open spec fn unit_has(g: Seq<Cell>, ps: Seq<usize>, d: int) -> bool {
    exists|k: int| 0 <= k < ps.len() && #[trigger] g[ps[k] as int] == Cell::Digit(d as u8)
}

/// Each digit 1..=9 stands in one of the cells `ps` of `g`, and no two of them
/// are the same: with nine cells, each digit exactly once.
pub open spec fn unit_exact(g: Seq<Cell>, ps: Seq<usize>) -> bool {
    &&& forall|d: int| 1 <= d <= 9 ==> #[trigger] unit_has(g, ps, d)
    &&& forall|k: int, l: int|
        0 <= k < ps.len() && 0 <= l < ps.len() && k != l ==> g[ps[k] as int] != g[ps[l] as int]
}

/// Every row, column and box holds each digit exactly once.
pub open spec fn classic_valid(g: Seq<Cell>) -> bool {
    forall|u: int|
        0 <= u < 9 ==> unit_exact(g, #[trigger] row_cells(u)) && unit_exact(g, col_cells(u))
            && unit_exact(g, box_cells(u))
}

pub proof fn lemma_units_ok(u: int)
    requires
        0 <= u < 9,
    ensures
        indices_ok(row_cells(u)),
        indices_ok(col_cells(u)),
        indices_ok(box_cells(u)),
{
    assert forall|k: int| 0 <= k < 9 implies 0 <= #[trigger] box_index(u, k) < 81 by {
        assert(0 <= u / 3 < 3 && 0 <= k / 3 < 3 && 0 <= u % 3 < 3 && 0 <= k % 3 < 3);
    }
    assert forall|k: int, l: int| 0 <= k < 9 && 0 <= l < 9 && k != l implies box_index(u, k)
        != box_index(u, l) by {
        assert(0 <= u / 3 < 3 && 0 <= k / 3 < 3 && 0 <= u % 3 < 3 && 0 <= k % 3 < 3);
        assert(0 <= l / 3 < 3 && 0 <= l % 3 < 3);
        assert(k == 3 * (k / 3) + k % 3);
        assert(l == 3 * (l / 3) + l % 3);
        if k / 3 == l / 3 {
            assert(k % 3 != l % 3);
        }
    }
}

/// Whether each digit stands exactly once in the nine cells `ps`.
pub fn unit_check(sudoku: &Sudoku, ps: &[usize; 9]) -> (r: bool)
    requires
        indices_ok(ps@),
    ensures
        r == unit_exact(sudoku@, ps@),
{
    proof {
        sudoku.lemma_len();
    }
    let mut d: u8 = 1;
    while d <= 9
        invariant
            1 <= d <= 10,
            indices_ok(ps@),
            sudoku@.len() == 81,
            forall|e: int| 1 <= e < d ==> #[trigger] unit_has(sudoku@, ps@, e),
        decreases 10 - d,
    {
        let mut found = false;
        let mut k: usize = 0;
        while k < 9
            invariant
                k <= 9,
                1 <= d <= 9,
                indices_ok(ps@),
                sudoku@.len() == 81,
                found ==> exists|j: int| 0 <= j < 9 && #[trigger] sudoku@[ps@[j] as int] == Cell::Digit(d),
                !found ==> forall|j: int| 0 <= j < k ==> sudoku@[ps@[j] as int] != Cell::Digit(d),
            decreases 9 - k,
        {
            if sudoku.at(ps[k]) == Cell::Digit(d) {
                found = true;
            }
            k = k + 1;
        }
        if !found {
            assert(!unit_has(sudoku@, ps@, d as int));
            return false;
        }
        assert(unit_has(sudoku@, ps@, d as int));
        d = d + 1;
    }
    let mut k: usize = 0;
    while k < 9
        invariant
            k <= 9,
            indices_ok(ps@),
            sudoku@.len() == 81,
            forall|a: int, b: int|
                0 <= a < k && 0 <= b < 9 && a != b ==> sudoku@[ps@[a] as int] != sudoku@[ps@[b] as int],
        decreases 9 - k,
    {
        let mut l: usize = 0;
        while l < 9
            invariant
                k < 9,
                l <= 9,
                indices_ok(ps@),
                sudoku@.len() == 81,
                forall|a: int, b: int|
                    0 <= a < k && 0 <= b < 9 && a != b ==> sudoku@[ps@[a] as int] != sudoku@[ps@[b] as int],
                forall|b: int| 0 <= b < l && k != b ==> sudoku@[ps@[k as int] as int] != sudoku@[ps@[b] as int],
            decreases 9 - l,
        {
            if l != k && sudoku.at(ps[k]) == sudoku.at(ps[l]) {
                return false;
            }
            l = l + 1;
        }
        k = k + 1;
    }
    true
}

/// Flat indices of row `u`.
pub fn row_set(u: usize) -> (r: [usize; 9])
    requires
        u < 9,
    ensures
        r@ == row_cells(u as int),
{
    let mut r: [usize; 9] = [0; 9];
    let mut k: usize = 0;
    while k < 9
        invariant
            k <= 9,
            u < 9,
            forall|j: int| 0 <= j < k ==> r@[j] == row_cells(u as int)[j],
        decreases 9 - k,
    {
        r[k] = u * 9 + k;
        k = k + 1;
    }
    assert(r@ =~= row_cells(u as int));
    r
}

/// Flat indices of column `u`.
pub fn col_set(u: usize) -> (r: [usize; 9])
    requires
        u < 9,
    ensures
        r@ == col_cells(u as int),
{
    let mut r: [usize; 9] = [0; 9];
    let mut k: usize = 0;
    while k < 9
        invariant
            k <= 9,
            u < 9,
            forall|j: int| 0 <= j < k ==> r@[j] == col_cells(u as int)[j],
        decreases 9 - k,
    {
        r[k] = k * 9 + u;
        k = k + 1;
    }
    assert(r@ =~= col_cells(u as int));
    r
}

/// Flat indices of box `u`.
pub fn box_set(u: usize) -> (r: [usize; 9])
    requires
        u < 9,
    ensures
        r@ == box_cells(u as int),
{
    let box_row = (u / 3) * 3;
    let box_col = (u % 3) * 3;
    let mut r: [usize; 9] = [0; 9];
    let mut i: usize = 0;
    while i < 3
        invariant
            i <= 3,
            u < 9,
            box_row == (u / 3) * 3,
            box_col == (u % 3) * 3,
            forall|j: int| 0 <= j < i * 3 ==> r@[j] == box_cells(u as int)[j],
        decreases 3 - i,
    {
        let mut j: usize = 0;
        while j < 3
            invariant
                i < 3,
                j <= 3,
                u < 9,
                box_row == (u / 3) * 3,
                box_col == (u % 3) * 3,
                forall|x: int| 0 <= x < i * 3 + j ==> r@[x] == box_cells(u as int)[x],
            decreases 3 - j,
        {
            r[i * 3 + j] = (box_row + i) * 9 + box_col + j;
            assert((i * 3 + j) as int / 3 == i && (i * 3 + j) as int % 3 == j);
            j = j + 1;
        }
        i = i + 1;
    }
    assert(r@ =~= box_cells(u as int));
    r
}

/// Whether every row, column and box holds each digit exactly once.
pub fn classic_check(sudoku: &Sudoku) -> (r: bool)
    ensures
        r == classic_valid(sudoku@),
{
    let mut u: usize = 0;
    while u < 9
        invariant
            u <= 9,
            forall|v: int|
                0 <= v < u ==> unit_exact(sudoku@, #[trigger] row_cells(v)) && unit_exact(
                    sudoku@,
                    col_cells(v),
                ) && unit_exact(sudoku@, box_cells(v)),
        decreases 9 - u,
    {
        proof {
            lemma_units_ok(u as int);
        }
        let rs = row_set(u);
        let cs = col_set(u);
        let bs = box_set(u);
        let a = unit_check(sudoku, &rs);
        let b = unit_check(sudoku, &cs);
        let c = unit_check(sudoku, &bs);
        if !(a && b && c) {
            return false;
        }
        assert(unit_exact(sudoku@, row_cells(u as int)) && unit_exact(sudoku@, col_cells(u as int))
            && unit_exact(sudoku@, box_cells(u as int)));
        assert forall|v: int| 0 <= v < u + 1 implies unit_exact(sudoku@, #[trigger] row_cells(v))
            && unit_exact(sudoku@, col_cells(v)) && unit_exact(sudoku@, box_cells(v)) by {
            if v < u {
                assert(unit_exact(sudoku@, row_cells(v)));
            }
        }
        u = u + 1;
    }
    true
}

} // verus!
