use vstd::prelude::*;

use crate::cell::{allows, lemma_refines_narrows, Cell};
use crate::grid::{flat, flat_index, grid_wf, pos_ok, refines_grid, Pos, Sudoku};
use crate::group::{agrees, digit_of};
use crate::relation::{apply_cage, cage_pair, lemma_cage_pair, lemma_cage_pair_keeps};
use crate::rules::Rule;

verus! {

/// Pairs of cells that must hold different digits, one pair per application.
#[derive(Debug)]
pub struct CageRule {
    pub counter: usize,
    pub cages: Vec<[Pos; 2]>,
}

/// One cage step on the cells at flat indices `a` and `b` of `g`.
pub open spec fn cage_outcome(g: Seq<Cell>, a: int, b: int) -> Option<Seq<Cell>> {
    match cage_pair(g[a], g[b]) {
        Some((x, y)) => Some(g.update(a, x).update(b, y)),
        None => None,
    }
}

/// The two cells of a pair are distinct cells of the board.
pub open spec fn pair_ok(p: [Pos; 2]) -> bool {
    pos_ok(p@[0]) && pos_ok(p@[1]) && p@[0] != p@[1]
}

/// Both ends of a pair step refine the cells they replace; on two different
/// digits nothing changes.
pub proof fn lemma_pair_step(g: Seq<Cell>, a: int, b: int, x: Cell, y: Cell)
    requires
        grid_wf(g),
        0 <= a < 81,
        0 <= b < 81,
        a != b,
        crate::cell::refines(g[a], x),
        crate::cell::refines(g[b], y),
    ensures
        refines_grid(g, g.update(a, x).update(b, y)),
        grid_wf(g.update(a, x).update(b, y)),
        x == g[a] && y == g[b] ==> g.update(a, x).update(b, y) == g,
{
    let h = g.update(a, x).update(b, y);
    assert forall|i: int| 0 <= i < 81 implies crate::cell::cell_wf(#[trigger] h[i]) by {
        lemma_refines_narrows(g[i], h[i]);
    }
    if x == g[a] && y == g[b] {
        assert(h =~= g);
    }
}

impl CageRule {
    /// A rule over the given pairs, starting at the first.
    pub fn new(cages: Vec<[Pos; 2]>) -> (r: Self)
        requires
            cages.len() > 0,
            forall|c: int| 0 <= c < cages.len() ==> pair_ok(#[trigger] cages@[c]),
        ensures
            r.inv(),
            r.cages == cages,
            r.counter == 0,
    {
        CageRule { counter: 0, cages }
    }

    /// The current pair; moves on to the next.
    pub fn next(&mut self) -> (r: [Pos; 2])
        requires
            old(self).inv(),
        ensures
            r == old(self).cages@[old(self).counter as int],
            *final(self) == old(self).advanced(),
    {
        let r = self.cages[self.counter];
        self.counter = (self.counter + 1) % self.cages.len();
        r
    }
}

/// The six caged pairs of the sum-sequence puzzle.
pub open spec fn default_cages() -> Seq<[Pos; 2]> {
    seq![
        [(0usize, 4usize), (1usize, 4usize)],
        [(0usize, 6usize), (1usize, 6usize)],
        [(4usize, 0usize), (4usize, 1usize)],
        [(4usize, 7usize), (4usize, 8usize)],
        [(6usize, 0usize), (6usize, 1usize)],
        [(7usize, 4usize), (8usize, 4usize)],
    ]
}

impl Default for CageRule {
    /// The six caged pairs of the sum-sequence puzzle.
    fn default() -> (r: Self)
        ensures
            r.inv(),
            r.counter == 0,
            r.cages@ == default_cages(),
    {
        let cages: Vec<[Pos; 2]> = vec![
            [(0, 4), (1, 4)],
            [(0, 6), (1, 6)],
            [(4, 0), (4, 1)],
            [(4, 7), (4, 8)],
            [(6, 0), (6, 1)],
            [(7, 4), (8, 4)],
        ];
        CageRule::new(cages)
    }
}

impl Rule for CageRule {
    open spec fn inv(&self) -> bool {
        &&& self.cages.len() > 0
        &&& self.counter < self.cages.len()
        &&& forall|c: int| 0 <= c < self.cages.len() ==> pair_ok(#[trigger] self.cages@[c])
    }

    open spec fn outcome(&self, g: Seq<Cell>) -> Option<Seq<Cell>> {
        let p = self.cages@[self.counter as int];
        cage_outcome(g, flat(p@[0]) as int, flat(p@[1]) as int)
    }

    open spec fn advanced(&self) -> Self {
        CageRule {
            counter: ((self.counter + 1) % (self.cages.len() as int)) as usize,
            cages: self.cages,
        }
    }

    open spec fn satisfied(&self, g: Seq<Cell>) -> bool {
        forall|c: int|
            0 <= c < self.cages.len() ==> g[flat((#[trigger] self.cages@[c])@[0]) as int] != g[flat(
                self.cages@[c]@[1],
            ) as int]
    }

    proof fn lemma_outcome(&self, g: Seq<Cell>) {
        let p = self.cages@[self.counter as int];
        let a = flat(p@[0]) as int;
        let b = flat(p@[1]) as int;
        assert(pair_ok(p));
        lemma_cage_pair(g[a], g[b]);
        if cage_pair(g[a], g[b]) is Some {
            let (x, y) = cage_pair(g[a], g[b])->Some_0;
            lemma_pair_step(g, a, b, x, y);
        }
        assert forall|sol: Seq<Cell>| #[trigger] agrees(g, sol) && self.satisfied(sol) implies self.outcome(
            g,
        ) is Some && agrees(self.outcome(g)->Some_0, sol) by {
            assert(sol[a] != sol[b]);
            assert(sol[a] is Digit && sol[b] is Digit);
            lemma_cage_pair_keeps(g[a], g[b], digit_of(sol[a]), digit_of(sol[b]));
            let (x, y) = cage_pair(g[a], g[b])->Some_0;
            let h = g.update(a, x).update(b, y);
            assert forall|i: int| 0 <= i < h.len() implies (#[trigger] sol[i]) is Digit && allows(
                h[i],
                digit_of(sol[i]),
            ) by {}
        }
    }

    fn update_cells(&mut self, sudoku: &mut Sudoku) -> (r: Result<(), ()>) {
        let p = self.next();
        proof {
            assert(pair_ok(p));
        }
        let a = flat_index(p[0]);
        let b = flat_index(p[1]);
        match apply_cage(sudoku.at(a), sudoku.at(b)) {
            None => Err(()),
            Some((x, y)) => {
                sudoku.put(a, x);
                sudoku.put(b, y);
                Ok(())
            },
        }
    }

    fn holds(&self, sudoku: &Sudoku) -> (r: bool) {
        let mut c: usize = 0;
        while c < self.cages.len()
            invariant
                c <= self.cages.len(),
                self.inv(),
                forall|e: int|
                    0 <= e < c ==> sudoku@[flat((#[trigger] self.cages@[e])@[0]) as int]
                        != sudoku@[flat(self.cages@[e]@[1]) as int],
            decreases self.cages.len() - c,
        {
            let p = self.cages[c];
            proof {
                assert(pair_ok(self.cages@[c as int]));
            }
            if sudoku.at(flat_index(p[0])) == sudoku.at(flat_index(p[1])) {
                return false;
            }
            c = c + 1;
        }
        true
    }
}

} // verus!
