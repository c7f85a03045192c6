use vstd::prelude::*;

use crate::cell::Cell;
use crate::grid::{flat_index, flats, lemma_flats_ok, positions_ok, Pos, Sudoku};
use crate::group::{
    agrees, group_outcome, lemma_group_keeps_solutions, lemma_group_outcome, update_group,
};
use crate::rules::{
    box_cells, box_set, col_cells, col_set, lemma_units_ok, row_cells, row_set, unit_check,
    unit_exact, Rule,
};

verus! {

/// The rows, one per application.
#[derive(Debug)]
pub struct RowRule {
    pub counter: usize,
}

/// The columns, one per application.
#[derive(Debug)]
pub struct ColRule {
    pub counter: usize,
}

/// The 3x3 boxes, one per application.
#[derive(Debug)]
pub struct BoxRule {
    pub counter: usize,
}

/// Custom groups of nine cells that hold each digit once, one per application.
#[derive(Debug)]
pub struct CageRule {
    pub counter: usize,
    pub sets: Vec<[Pos; 9]>,
}

impl Default for RowRule {
    fn default() -> (r: Self)
        ensures
            r.counter == 0,
    {
        RowRule { counter: 0 }
    }
}

impl Default for ColRule {
    fn default() -> (r: Self)
        ensures
            r.counter == 0,
    {
        ColRule { counter: 0 }
    }
}

impl Default for BoxRule {
    fn default() -> (r: Self)
        ensures
            r.counter == 0,
    {
        BoxRule { counter: 0 }
    }
}

impl RowRule {
    /// The flat indices of the current row; moves on to the next.
    pub fn next_set(&mut self) -> (r: [usize; 9])
        requires
            old(self).inv(),
        ensures
            r@ == row_cells(old(self).counter as int),
            *final(self) == old(self).advanced(),
    {
        let r = row_set(self.counter);
        self.counter = (self.counter + 1) % 9;
        r
    }
}

impl ColRule {
    /// The flat indices of the current column; moves on to the next.
    pub fn next_set(&mut self) -> (r: [usize; 9])
        requires
            old(self).inv(),
        ensures
            r@ == col_cells(old(self).counter as int),
            *final(self) == old(self).advanced(),
    {
        let r = col_set(self.counter);
        self.counter = (self.counter + 1) % 9;
        r
    }
}

impl BoxRule {
    /// The flat indices of the current box; moves on to the next.
    pub fn next_set(&mut self) -> (r: [usize; 9])
        requires
            old(self).inv(),
        ensures
            r@ == box_cells(old(self).counter as int),
            *final(self) == old(self).advanced(),
    {
        let r = box_set(self.counter);
        self.counter = (self.counter + 1) % 9;
        r
    }
}

impl Rule for RowRule {
    open spec fn inv(&self) -> bool {
        self.counter < 9
    }

    open spec fn outcome(&self, g: Seq<Cell>) -> Option<Seq<Cell>> {
        group_outcome(g, row_cells(self.counter as int))
    }

    open spec fn advanced(&self) -> Self {
        RowRule { counter: ((self.counter + 1) % 9) as usize }
    }

    open spec fn satisfied(&self, g: Seq<Cell>) -> bool {
        forall|u: int| 0 <= u < 9 ==> unit_exact(g, #[trigger] row_cells(u))
    }

    proof fn lemma_outcome(&self, g: Seq<Cell>) {
        lemma_units_ok(self.counter as int);
        lemma_group_outcome(g, row_cells(self.counter as int));
        assert forall|sol: Seq<Cell>| #[trigger] agrees(g, sol) && self.satisfied(sol) implies self.outcome(
            g,
        ) is Some && agrees(self.outcome(g)->Some_0, sol) by {
            assert(unit_exact(sol, row_cells(self.counter as int)));
            lemma_group_keeps_solutions(g, row_cells(self.counter as int), sol);
        }
    }

    fn update_cells(&mut self, sudoku: &mut Sudoku) -> (r: Result<(), ()>) {
        proof {
            lemma_units_ok(self.counter as int);
        }
        let ps = self.next_set();
        update_group(sudoku, &ps)
    }

    fn holds(&self, sudoku: &Sudoku) -> (r: bool) {
        let mut u: usize = 0;
        while u < 9
            invariant
                u <= 9,
                forall|v: int| 0 <= v < u ==> unit_exact(sudoku@, #[trigger] row_cells(v)),
            decreases 9 - u,
        {
            proof {
                lemma_units_ok(u as int);
            }
            if !unit_check(sudoku, &row_set(u)) {
                return false;
            }
            u = u + 1;
        }
        true
    }
}

impl Rule for ColRule {
    open spec fn inv(&self) -> bool {
        self.counter < 9
    }

    open spec fn outcome(&self, g: Seq<Cell>) -> Option<Seq<Cell>> {
        group_outcome(g, col_cells(self.counter as int))
    }

    open spec fn advanced(&self) -> Self {
        ColRule { counter: ((self.counter + 1) % 9) as usize }
    }

    open spec fn satisfied(&self, g: Seq<Cell>) -> bool {
        forall|u: int| 0 <= u < 9 ==> unit_exact(g, #[trigger] col_cells(u))
    }

    proof fn lemma_outcome(&self, g: Seq<Cell>) {
        lemma_units_ok(self.counter as int);
        lemma_group_outcome(g, col_cells(self.counter as int));
        assert forall|sol: Seq<Cell>| #[trigger] agrees(g, sol) && self.satisfied(sol) implies self.outcome(
            g,
        ) is Some && agrees(self.outcome(g)->Some_0, sol) by {
            assert(unit_exact(sol, col_cells(self.counter as int)));
            lemma_group_keeps_solutions(g, col_cells(self.counter as int), sol);
        }
    }

    fn update_cells(&mut self, sudoku: &mut Sudoku) -> (r: Result<(), ()>) {
        proof {
            lemma_units_ok(self.counter as int);
        }
        let ps = self.next_set();
        update_group(sudoku, &ps)
    }

    fn holds(&self, sudoku: &Sudoku) -> (r: bool) {
        let mut u: usize = 0;
        while u < 9
            invariant
                u <= 9,
                forall|v: int| 0 <= v < u ==> unit_exact(sudoku@, #[trigger] col_cells(v)),
            decreases 9 - u,
        {
            proof {
                lemma_units_ok(u as int);
            }
            if !unit_check(sudoku, &col_set(u)) {
                return false;
            }
            u = u + 1;
        }
        true
    }
}

impl Rule for BoxRule {
    open spec fn inv(&self) -> bool {
        self.counter < 9
    }

    open spec fn outcome(&self, g: Seq<Cell>) -> Option<Seq<Cell>> {
        group_outcome(g, box_cells(self.counter as int))
    }

    open spec fn advanced(&self) -> Self {
        BoxRule { counter: ((self.counter + 1) % 9) as usize }
    }

    open spec fn satisfied(&self, g: Seq<Cell>) -> bool {
        forall|u: int| 0 <= u < 9 ==> unit_exact(g, #[trigger] box_cells(u))
    }

    proof fn lemma_outcome(&self, g: Seq<Cell>) {
        lemma_units_ok(self.counter as int);
        lemma_group_outcome(g, box_cells(self.counter as int));
        assert forall|sol: Seq<Cell>| #[trigger] agrees(g, sol) && self.satisfied(sol) implies self.outcome(
            g,
        ) is Some && agrees(self.outcome(g)->Some_0, sol) by {
            assert(unit_exact(sol, box_cells(self.counter as int)));
            lemma_group_keeps_solutions(g, box_cells(self.counter as int), sol);
        }
    }

    fn update_cells(&mut self, sudoku: &mut Sudoku) -> (r: Result<(), ()>) {
        proof {
            lemma_units_ok(self.counter as int);
        }
        let ps = self.next_set();
        update_group(sudoku, &ps)
    }

    fn holds(&self, sudoku: &Sudoku) -> (r: bool) {
        let mut u: usize = 0;
        while u < 9
            invariant
                u <= 9,
                forall|v: int| 0 <= v < u ==> unit_exact(sudoku@, #[trigger] box_cells(v)),
            decreases 9 - u,
        {
            proof {
                lemma_units_ok(u as int);
            }
            if !unit_check(sudoku, &box_set(u)) {
                return false;
            }
            u = u + 1;
        }
        true
    }
}

/// Flat indices of nine positions.
pub fn flat_set(ps: &[Pos; 9]) -> (r: [usize; 9])
    requires
        positions_ok(ps@),
    ensures
        r@ == flats(ps@),
{
    let mut r: [usize; 9] = [0; 9];
    let mut k: usize = 0;
    while k < 9
        invariant
            k <= 9,
            positions_ok(ps@),
            forall|j: int| 0 <= j < k ==> r@[j] == flats(ps@)[j],
        decreases 9 - k,
    {
        r[k] = flat_index(ps[k]);
        k = k + 1;
    }
    assert(r@ =~= flats(ps@));
    r
}

impl CageRule {
    /// A rule over the given groups, starting at the first.
    pub fn new(sets: Vec<[Pos; 9]>) -> (r: Self)
        requires
            sets.len() > 0,
            forall|s: int| 0 <= s < sets.len() ==> positions_ok(#[trigger] sets@[s]@),
        ensures
            r.inv(),
            r.sets == sets,
            r.counter == 0,
    {
        CageRule { counter: 0, sets }
    }

    /// The flat indices of the current group; moves on to the next.
    pub fn next_set(&mut self) -> (r: [usize; 9])
        requires
            old(self).inv(),
        ensures
            r@ == flats(old(self).sets@[old(self).counter as int]@),
            *final(self) == old(self).advanced(),
    {
        let r = flat_set(&self.sets[self.counter]);
        self.counter = (self.counter + 1) % self.sets.len();
        r
    }
}

/// The two groups that the caged pairs of the sum-sequence puzzle form.
pub open spec fn default_groups() -> Seq<Seq<Pos>> {
    seq![
        seq![
            (0usize, 2usize), (1usize, 2usize), (0usize, 4usize), (0usize, 6usize), (7usize, 2usize),
            (8usize, 2usize), (8usize, 4usize), (7usize, 6usize), (8usize, 6usize),
        ],
        seq![
            (2usize, 0usize), (2usize, 1usize), (4usize, 0usize), (6usize, 0usize), (2usize, 7usize),
            (2usize, 8usize), (4usize, 8usize), (6usize, 7usize), (6usize, 8usize),
        ],
    ]
}

impl Default for CageRule {
    /// The two groups that the caged pairs of the sum-sequence puzzle form.
    fn default() -> (r: Self)
        ensures
            r.inv(),
            r.counter == 0,
            r.sets.len() == 2,
            r.sets@[0]@ == default_groups()[0],
            r.sets@[1]@ == default_groups()[1],
    {
        let sets: Vec<[Pos; 9]> = vec![
            [(0, 2), (1, 2), (0, 4), (0, 6), (7, 2), (8, 2), (8, 4), (7, 6), (8, 6)],
            [(2, 0), (2, 1), (4, 0), (6, 0), (2, 7), (2, 8), (4, 8), (6, 7), (6, 8)],
        ];
        CageRule::new(sets)
    }
}

impl Rule for CageRule {
    open spec fn inv(&self) -> bool {
        &&& self.sets.len() > 0
        &&& self.counter < self.sets.len()
        &&& forall|s: int| 0 <= s < self.sets.len() ==> positions_ok(#[trigger] self.sets@[s]@)
    }

    open spec fn outcome(&self, g: Seq<Cell>) -> Option<Seq<Cell>> {
        group_outcome(g, flats(self.sets@[self.counter as int]@))
    }

    open spec fn advanced(&self) -> Self {
        CageRule { counter: ((self.counter + 1) % (self.sets.len() as int)) as usize, sets: self.sets }
    }

    open spec fn satisfied(&self, g: Seq<Cell>) -> bool {
        forall|s: int| 0 <= s < self.sets.len() ==> unit_exact(g, flats(#[trigger] self.sets@[s]@))
    }

    proof fn lemma_outcome(&self, g: Seq<Cell>) {
        let ps = self.sets@[self.counter as int]@;
        lemma_flats_ok(ps);
        lemma_group_outcome(g, flats(ps));
        assert forall|sol: Seq<Cell>| #[trigger] agrees(g, sol) && self.satisfied(sol) implies self.outcome(
            g,
        ) is Some && agrees(self.outcome(g)->Some_0, sol) by {
            assert(unit_exact(sol, flats(self.sets@[self.counter as int]@)));
            lemma_group_keeps_solutions(g, flats(ps), sol);
        }
    }

    fn update_cells(&mut self, sudoku: &mut Sudoku) -> (r: Result<(), ()>) {
        proof {
            lemma_flats_ok(self.sets@[self.counter as int]@);
        }
        let ps = self.next_set();
        update_group(sudoku, &ps)
    }

    fn holds(&self, sudoku: &Sudoku) -> (r: bool) {
        let mut s: usize = 0;
        while s < self.sets.len()
            invariant
                s <= self.sets.len(),
                self.inv(),
                forall|t: int| 0 <= t < s ==> unit_exact(sudoku@, flats(#[trigger] self.sets@[t]@)),
            decreases self.sets.len() - s,
        {
            proof {
                lemma_flats_ok(self.sets@[s as int]@);
            }
            if !unit_check(sudoku, &flat_set(&self.sets[s])) {
                return false;
            }
            s = s + 1;
        }
        true
    }
}

} // verus!
