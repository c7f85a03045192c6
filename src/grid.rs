use vstd::prelude::*;

use crate::cell::{
    cell_wf, decode, encode, extract_cell, lemma_refines_narrows, lemma_refines_trans, refines,
    weight, Cell,
};

verus! {

/// A (row, column) pair, both in 0..9.
pub type Pos = (usize, usize);

pub open spec fn pos_ok(p: Pos) -> bool {
    p.0 < 9 && p.1 < 9
}

/// Row-major index of a position.
pub open spec fn flat(p: Pos) -> usize {
    (p.0 * 9 + p.1) as usize
}

pub fn flat_index(p: Pos) -> (r: usize)
    requires
        pos_ok(p),
    ensures
        r == flat(p),
        r < 81,
{
    p.0 * 9 + p.1
}

/// Row-major flat indices of a list of positions.
pub open spec fn flats(ps: Seq<Pos>) -> Seq<usize> {
    Seq::new(ps.len(), |k: int| flat(ps[k]))
}

/// All positions are on the board and no two are the same.
pub open spec fn positions_ok(ps: Seq<Pos>) -> bool {
    &&& forall|k: int| 0 <= k < ps.len() ==> pos_ok(#[trigger] ps[k])
    &&& forall|k: int, l: int| 0 <= k < ps.len() && 0 <= l < ps.len() && k != l ==> ps[k] != ps[l]
}

/// Flat indices on the board, no two the same.
pub open spec fn indices_ok(ps: Seq<usize>) -> bool {
    &&& forall|k: int| 0 <= k < ps.len() ==> #[trigger] ps[k] < 81
    &&& forall|k: int, l: int| 0 <= k < ps.len() && 0 <= l < ps.len() && k != l ==> ps[k] != ps[l]
}

pub proof fn lemma_flats_ok(ps: Seq<Pos>)
    requires
        positions_ok(ps),
    ensures
        indices_ok(flats(ps)),
{
    assert forall|k: int, l: int|
        0 <= k < ps.len() && 0 <= l < ps.len() && k != l implies flats(ps)[k] != flats(ps)[l] by {
        assert(pos_ok(ps[k]) && pos_ok(ps[l]));
        assert(ps[k] != ps[l]);
    }
}

pub open spec fn grid_wf(g: Seq<Cell>) -> bool {
    g.len() == 81 && forall|i: int| 0 <= i < 81 ==> cell_wf(#[trigger] g[i])
}

/// Every cell of `b` refines the same cell of `a`.
pub open spec fn refines_grid(a: Seq<Cell>, b: Seq<Cell>) -> bool {
    a.len() == b.len() && forall|i: int| 0 <= i < a.len() ==> refines(#[trigger] a[i], b[i])
}

/// Every cell holds a digit.
pub open spec fn complete(g: Seq<Cell>) -> bool {
    forall|i: int| 0 <= i < g.len() ==> (#[trigger] g[i]) is Digit
}

/// Sum of the cell weights.
pub open spec fn weight_sum(g: Seq<Cell>) -> nat
    decreases g.len(),
{
    if g.len() == 0 {
        0
    } else {
        weight_sum(g.drop_last()) + weight(g.last())
    }
}

/// `g` with `vals[k]` written at index `ps[k]` for each `k`.
pub open spec fn overwrite(g: Seq<Cell>, ps: Seq<usize>, vals: Seq<Cell>) -> Seq<Cell> {
    Seq::new(
        g.len(),
        |i: int|
            if exists|k: int| 0 <= k < ps.len() && ps[k] == i {
                vals[choose|k: int| 0 <= k < ps.len() && ps[k] == i]
            } else {
                g[i]
            },
    )
}

pub proof fn lemma_refines_grid_trans(a: Seq<Cell>, b: Seq<Cell>, c: Seq<Cell>)
    requires
        grid_wf(a),
        refines_grid(a, b),
        refines_grid(b, c),
    ensures
        refines_grid(a, c),
        grid_wf(c),
{
    assert forall|i: int| 0 <= i < a.len() implies refines(#[trigger] a[i], c[i]) by {
        lemma_refines_trans(a[i], b[i], c[i]);
    }
    assert forall|i: int| 0 <= i < 81 implies cell_wf(#[trigger] c[i]) by {
        lemma_refines_narrows(a[i], c[i]);
    }
}

pub proof fn lemma_refines_grid_refl(a: Seq<Cell>)
    ensures
        refines_grid(a, a),
{
}

/// A refinement of a grid weighs no more, and strictly less unless equal.
pub proof fn lemma_weight_sum(a: Seq<Cell>, b: Seq<Cell>)
    requires
        refines_grid(a, b),
        forall|i: int| 0 <= i < a.len() ==> cell_wf(#[trigger] a[i]),
    ensures
        weight_sum(b) <= weight_sum(a),
        a != b ==> weight_sum(b) < weight_sum(a),
    decreases a.len(),
{
    if a.len() > 0 {
        lemma_weight_sum(a.drop_last(), b.drop_last());
        lemma_refines_narrows(a.last(), b.last());
        if a != b {
            if a.drop_last() == b.drop_last() {
                assert(a.last() != b.last()) by {
                    if a.last() == b.last() {
                        assert(a =~= b) by {
                            assert forall|i: int| 0 <= i < a.len() implies a[i] == b[i] by {
                                if i < a.len() - 1 {
                                    assert(a.drop_last()[i] == b.drop_last()[i]);
                                }
                            }
                        }
                    }
                }
            }
        }
    } else {
        assert(a =~= b);
    }
}

/// Writing a refinement of each cell refines the grid.
pub proof fn lemma_overwrite_refines(g: Seq<Cell>, ps: Seq<usize>, vals: Seq<Cell>)
    requires
        ps.len() == vals.len(),
        forall|k: int| 0 <= k < ps.len() ==> #[trigger] ps[k] < g.len(),
        forall|k: int| 0 <= k < ps.len() ==> refines(g[ps[k] as int], #[trigger] vals[k]),
    ensures
        refines_grid(g, overwrite(g, ps, vals)),
{
    let h = overwrite(g, ps, vals);
    assert forall|i: int| 0 <= i < g.len() implies refines(#[trigger] g[i], h[i]) by {
        if exists|k: int| 0 <= k < ps.len() && ps[k] == i {
            let k = choose|k: int| 0 <= k < ps.len() && ps[k] == i;
            assert(refines(g[ps[k] as int], vals[k]));
        }
    }
}

/// Writing back the cells already there changes nothing.
pub proof fn lemma_overwrite_same(g: Seq<Cell>, ps: Seq<usize>, vals: Seq<Cell>)
    requires
        ps.len() == vals.len(),
        forall|k: int| 0 <= k < ps.len() ==> #[trigger] ps[k] < g.len(),
        forall|k: int| 0 <= k < ps.len() ==> g[ps[k] as int] == #[trigger] vals[k],
    ensures
        overwrite(g, ps, vals) == g,
{
    let h = overwrite(g, ps, vals);
    assert forall|i: int| 0 <= i < g.len() implies #[trigger] h[i] == g[i] by {
        if exists|k: int| 0 <= k < ps.len() && ps[k] == i {
            let k = choose|k: int| 0 <= k < ps.len() && ps[k] == i;
            assert(g[ps[k] as int] == vals[k]);
        }
    }
    assert(h =~= g);
}

/// The 9x9 board.
#[derive(Debug)]
pub struct Sudoku {
    cells: [Cell; 81],
}

impl View for Sudoku {
    type V = Seq<Cell>;

    closed spec fn view(&self) -> Seq<Cell> {
        self.cells@
    }
}

impl Clone for Sudoku {
    fn clone(&self) -> (r: Sudoku)
        ensures
            r@ == self@,
    {
        Sudoku { cells: self.cells }
    }
}

impl Sudoku {
    pub open spec fn wf(&self) -> bool {
        grid_wf(self@)
    }

    pub proof fn lemma_len(&self)
        ensures
            self@.len() == 81,
    {
    }

    /// A board of empty cells.
    pub fn new() -> (r: Sudoku)
        ensures
            r.wf(),
            forall|i: int| 0 <= i < 81 ==> #[trigger] r@[i] == Cell::Empty,
    {
        Sudoku { cells: [Cell::Empty; 81] }
    }

    /// A board from the 16-bit codes of its cells, row by row.
    pub fn from_codes(codes: [[u16; 9]; 9]) -> (r: Sudoku)
        ensures
            r.wf(),
            forall|i: int, j: int|
                0 <= i < 9 && 0 <= j < 9 ==> #[trigger] r@[i * 9 + j] == decode(codes[i][j]),
    {
        let mut s = Sudoku::new();
        let mut i: usize = 0;
        while i < 9
            invariant
                i <= 9,
                s.wf(),
                forall|a: int, b: int|
                    0 <= a < i && 0 <= b < 9 ==> #[trigger] s@[a * 9 + b] == decode(codes[a][b]),
            decreases 9 - i,
        {
            let mut j: usize = 0;
            while j < 9
                invariant
                    i < 9,
                    j <= 9,
                    s.wf(),
                    forall|a: int, b: int|
                        0 <= a < i && 0 <= b < 9 ==> #[trigger] s@[a * 9 + b] == decode(
                            codes[a][b],
                        ),
                    forall|b: int| 0 <= b < j ==> #[trigger] s@[i * 9 + b] == decode(codes[i as int][b]),
                decreases 9 - j,
            {
                let c = extract_cell(codes[i][j]);
                s.cells[i * 9 + j] = c;
                assert forall|a: int, b: int|
                    0 <= a < i && 0 <= b < 9 implies #[trigger] s@[a * 9 + b] == decode(codes[a][b]) by {
                    assert(a * 9 + b < i * 9);
                }
                j = j + 1;
            }
            i = i + 1;
        }
        s
    }

    /// The cell at flat index `i`.
    pub fn at(&self, i: usize) -> (c: Cell)
        requires
            i < 81,
        ensures
            c == self@[i as int],
    {
        self.cells[i]
    }

    /// Writes the cell at flat index `i`.
    pub fn put(&mut self, i: usize, c: Cell)
        requires
            i < 81,
        ensures
            final(self)@ == old(self)@.update(i as int, c),
    {
        self.cells[i] = c;
    }

    /// The cell at a position.
    pub fn cell(&self, p: Pos) -> (c: Cell)
        requires
            pos_ok(p),
        ensures
            c == self@[flat(p) as int],
    {
        self.cells[flat_index(p)]
    }

    /// The 16-bit code of the cell at a position.
    pub fn code(&self, p: Pos) -> (r: u16)
        requires
            pos_ok(p),
        ensures
            r == encode(self@[flat(p) as int]),
    {
        self.cell(p).code()
    }

    /// Writes a cell given by its 16-bit code.
    pub fn set_code(&mut self, p: Pos, value: u16)
        requires
            pos_ok(p),
            old(self).wf(),
        ensures
            final(self)@ == old(self)@.update(flat(p) as int, decode(value)),
            final(self).wf(),
    {
        let c = extract_cell(value);
        self.cells[flat_index(p)] = c;
    }

    /// Whether two boards hold the same cells.
    pub fn same_as(&self, other: &Sudoku) -> (r: bool)
        ensures
            r == (self@ == other@),
    {
        let mut i: usize = 0;
        while i < 81
            invariant
                i <= 81,
                forall|k: int| 0 <= k < i ==> self@[k] == other@[k],
            decreases 81 - i,
        {
            if self.cells[i] != other.cells[i] {
                return false;
            }
            i = i + 1;
        }
        assert(self@ =~= other@);
        true
    }

    /// Whether every cell holds a digit.
    pub fn is_complete(&self) -> (r: bool)
        ensures
            r == complete(self@),
    {
        let mut i: usize = 0;
        while i < 81
            invariant
                i <= 81,
                forall|k: int| 0 <= k < i ==> (#[trigger] self@[k]) is Digit,
            decreases 81 - i,
        {
            match self.cells[i] {
                Cell::Digit(_) => {},
                _ => {
                    return false;
                },
            }
            i = i + 1;
        }
        true
    }

    /// Writes `vals[k]` at flat index `ps[k]` for each `k`.
    pub fn write_cells(&mut self, ps: &Vec<usize>, vals: &Vec<Cell>)
        requires
            ps.len() == vals.len(),
            indices_ok(ps@),
        ensures
            final(self)@ == overwrite(old(self)@, ps@, vals@),
    {
        let ghost g = self@;
        let mut n: usize = 0;
        while n < ps.len()
            invariant
                n <= ps.len(),
                ps.len() == vals.len(),
                indices_ok(ps@),
                g.len() == 81,
                self@ == overwrite(g, ps@.take(n as int), vals@.take(n as int)),
            decreases ps.len() - n,
        {
            let ghost before = self@;
            self.cells[ps[n]] = vals[n];
            proof {
                let ps1 = ps@.take(n + 1);
                let vs1 = vals@.take(n + 1);
                let ps0 = ps@.take(n as int);
                let vs0 = vals@.take(n as int);
                assert forall|i: int| 0 <= i < 81 implies #[trigger] self@[i] == overwrite(g, ps1, vs1)[i] by {
                    if i == ps@[n as int] {
                        assert(ps1[n as int] == i);
                        let k = choose|k: int| 0 <= k < ps1.len() && ps1[k] == i;
                        assert(ps@[k] == ps@[n as int]);
                    } else {
                        if exists|k: int| 0 <= k < ps0.len() && ps0[k] == i {
                            let k0 = choose|k: int| 0 <= k < ps0.len() && ps0[k] == i;
                            assert(ps1[k0] == i);
                            let k1 = choose|k: int| 0 <= k < ps1.len() && ps1[k] == i;
                            assert(k1 != n);
                            assert(ps@[k1] == ps@[k0]);
                        } else {
                            assert forall|k: int| 0 <= k < ps1.len() implies ps1[k] != i by {
                                if k < n {
                                    assert(ps0[k] == ps1[k]);
                                }
                            }
                        }
                    }
                }
                assert(self@ =~= overwrite(g, ps1, vs1));
            }
            n = n + 1;
        }
        assert(ps@.take(ps.len() as int) =~= ps@);
        assert(vals@.take(vals.len() as int) =~= vals@);
    }
}

} // verus!
