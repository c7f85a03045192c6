use vstd::prelude::*;

use crate::cell::{allows, lemma_refines_narrows, refines, Cell};
use crate::grid::{
    complete, flat_index, flats, grid_wf, indices_ok, lemma_flats_ok, lemma_overwrite_refines,
    lemma_overwrite_same, overwrite, positions_ok, refines_grid, Pos, Sudoku,
};
use crate::group::{agrees, digit_of};
use crate::relation::{apply_mirror, lemma_mirror_pair, lemma_mirror_pair_keeps, mirror_pair};
use crate::rules::Rule;

verus! {

/// Lines of cells that read the same from both ends, one line per application.
#[derive(Debug)]
pub struct PalindromeRule {
    pub counter: usize,
    pub sets: Vec<Vec<Pos>>,
}

/// Some pair of mirrored cells of the line `ps` cannot be made equal.
pub open spec fn mirror_fails(g: Seq<Cell>, ps: Seq<usize>) -> bool {
    exists|i: int|
        0 <= i < ps.len() / 2 && #[trigger] mirror_pair(g[ps[i] as int], g[ps[ps.len() - 1 - i] as int])
            is None
}

/// The cells of the line `ps` after each mirrored pair has been made equal; a
/// middle cell stays as it is.
pub open spec fn mirror_vals(g: Seq<Cell>, ps: Seq<usize>) -> Seq<Cell> {
    let n = ps.len();
    Seq::new(
        n,
        |k: int|
            if k < n / 2 {
                mirror_pair(g[ps[k] as int], g[ps[n - 1 - k] as int])->Some_0.0
            } else if k >= n - n / 2 {
                mirror_pair(g[ps[n - 1 - k] as int], g[ps[k] as int])->Some_0.1
            } else {
                g[ps[k] as int]
            },
    )
}

/// One palindrome step on the line `ps` of `g`.
pub open spec fn palindrome_outcome(g: Seq<Cell>, ps: Seq<usize>) -> Option<Seq<Cell>> {
    if mirror_fails(g, ps) {
        None
    } else {
        Some(overwrite(g, ps, mirror_vals(g, ps)))
    }
}

/// Mirrored cells of the line `ps` of `g` are equal.
pub open spec fn mirrored(g: Seq<Cell>, ps: Seq<usize>) -> bool {
    forall|i: int| 0 <= i < ps.len() / 2 ==> g[ps[i] as int] == #[trigger] g[ps[ps.len() - 1 - i] as int]
}

pub proof fn lemma_palindrome_outcome(g: Seq<Cell>, ps: Seq<usize>)
    requires
        grid_wf(g),
        indices_ok(ps),
    ensures
        palindrome_outcome(g, ps) is Some ==> refines_grid(g, palindrome_outcome(g, ps)->Some_0)
            && grid_wf(palindrome_outcome(g, ps)->Some_0),
        complete(g) && mirrored(g, ps) ==> palindrome_outcome(g, ps) == Some(g),
{
    let n = ps.len();
    let vals = mirror_vals(g, ps);
    if !mirror_fails(g, ps) {
        assert forall|k: int| 0 <= k < n implies refines(g[ps[k] as int], #[trigger] vals[k]) by {
            if k < n / 2 {
                lemma_mirror_pair(g[ps[k] as int], g[ps[n - 1 - k] as int]);
                assert(mirror_pair(g[ps[k] as int], g[ps[n - 1 - k] as int]) is Some);
            } else if k >= n - n / 2 {
                let i = n - 1 - k;
                assert(n - 1 - i == k);
                lemma_mirror_pair(g[ps[i] as int], g[ps[k] as int]);
                assert(mirror_pair(g[ps[i] as int], g[ps[n - 1 - i] as int]) is Some);
            }
        }
        lemma_overwrite_refines(g, ps, vals);
        let h = overwrite(g, ps, vals);
        assert forall|i: int| 0 <= i < 81 implies crate::cell::cell_wf(#[trigger] h[i]) by {
            lemma_refines_narrows(g[i], h[i]);
        }
    }
    if complete(g) && mirrored(g, ps) {
        assert forall|i: int| 0 <= i < n / 2 implies !(#[trigger] mirror_pair(
            g[ps[i] as int],
            g[ps[n - 1 - i] as int],
        ) is None) by {
            assert(g[ps[i] as int] == g[ps[n - 1 - i] as int]);
            lemma_mirror_pair(g[ps[i] as int], g[ps[n - 1 - i] as int]);
        }
        assert forall|k: int| 0 <= k < n implies g[ps[k] as int] == #[trigger] vals[k] by {
            if k < n / 2 {
                assert(g[ps[k] as int] == g[ps[n - 1 - k] as int]);
                lemma_mirror_pair(g[ps[k] as int], g[ps[n - 1 - k] as int]);
            } else if k >= n - n / 2 {
                let i = n - 1 - k;
                assert(n - 1 - i == k);
                assert(g[ps[i] as int] == g[ps[n - 1 - i] as int]);
                lemma_mirror_pair(g[ps[i] as int], g[ps[k] as int]);
            }
        }
        lemma_overwrite_same(g, ps, vals);
    }
}

/// Flat indices of a line of positions.
pub fn flat_line(ps: &Vec<Pos>) -> (r: Vec<usize>)
    requires
        positions_ok(ps@),
    ensures
        r@ == flats(ps@),
{
    let mut r: Vec<usize> = Vec::new();
    let mut k: usize = 0;
    while k < ps.len()
        invariant
            k <= ps.len(),
            positions_ok(ps@),
            r@.len() == k,
            forall|j: int| 0 <= j < k ==> r@[j] == flats(ps@)[j],
        decreases ps.len() - k,
    {
        r.push(flat_index(ps[k]));
        k = k + 1;
    }
    assert(r@ =~= flats(ps@));
    r
}

impl PalindromeRule {
    /// A rule over the given lines, starting at the first.
    pub fn new(sets: Vec<Vec<Pos>>) -> (r: Self)
        requires
            sets.len() > 0,
            forall|s: int| 0 <= s < sets.len() ==> positions_ok(#[trigger] sets@[s]@),
        ensures
            r.inv(),
            r.sets == sets,
            r.counter == 0,
    {
        PalindromeRule { counter: 0, sets }
    }

    /// The flat indices of the current line; moves on to the next.
    pub fn next(&mut self) -> (r: Vec<usize>)
        requires
            old(self).inv(),
        ensures
            r@ == flats(old(self).sets@[old(self).counter as int]@),
            *final(self) == old(self).advanced(),
    {
        let r = flat_line(&self.sets[self.counter]);
        self.counter = (self.counter + 1) % self.sets.len();
        r
    }
}

/// The six palindromic lines of the sum-sequence puzzle.
pub open spec fn default_lines() -> Seq<Seq<Pos>> {
    seq![
        seq![(1usize, 4usize), (2usize, 3usize), (3usize, 2usize), (4usize, 1usize)],
        seq![(1usize, 6usize), (2usize, 5usize)],
        seq![(3usize, 4usize), (4usize, 3usize), (5usize, 2usize), (6usize, 1usize)],
        seq![(3usize, 6usize), (4usize, 5usize)],
        seq![(5usize, 4usize), (6usize, 3usize)],
        seq![(4usize, 7usize), (5usize, 6usize), (6usize, 5usize), (7usize, 4usize)],
    ]
}

impl Default for PalindromeRule {
    /// The six palindromic lines of the sum-sequence puzzle.
    fn default() -> (r: Self)
        ensures
            r.inv(),
            r.counter == 0,
            r.sets.len() == 6,
            forall|k: int| 0 <= k < 6 ==> (#[trigger] r.sets@[k])@ == default_lines()[k],
    {
        let sets: Vec<Vec<Pos>> = vec![
            vec![(1, 4), (2, 3), (3, 2), (4, 1)],
            vec![(1, 6), (2, 5)],
            vec![(3, 4), (4, 3), (5, 2), (6, 1)],
            vec![(3, 6), (4, 5)],
            vec![(5, 4), (6, 3)],
            vec![(4, 7), (5, 6), (6, 5), (7, 4)],
        ];
        PalindromeRule::new(sets)
    }
}

/// A palindrome step keeps every completion that mirrors the line.
pub proof fn lemma_palindrome_keeps(g: Seq<Cell>, ps: Seq<usize>, sol: Seq<Cell>)
    requires
        grid_wf(g),
        indices_ok(ps),
        agrees(g, sol),
        mirrored(sol, ps),
    ensures
        palindrome_outcome(g, ps) is Some,
        agrees(palindrome_outcome(g, ps)->Some_0, sol),
{
    let n = ps.len();
    assert forall|i: int| 0 <= i < n / 2 implies !(#[trigger] mirror_pair(g[ps[i] as int], g[ps[n - 1 - i] as int]) is None) by {
        assert(sol[ps[i] as int] == sol[ps[n - 1 - i] as int]);
        lemma_mirror_pair_keeps(g[ps[i] as int], g[ps[n - 1 - i] as int], digit_of(sol[ps[i] as int]));
    }
    let vals = mirror_vals(g, ps);
    assert forall|k: int| 0 <= k < n implies allows(#[trigger] vals[k], digit_of(sol[ps[k] as int])) by {
        if k < n / 2 {
            assert(sol[ps[k] as int] == sol[ps[n - 1 - k] as int]);
            lemma_mirror_pair_keeps(g[ps[k] as int], g[ps[n - 1 - k] as int], digit_of(sol[ps[k] as int]));
        } else if k >= n - n / 2 {
            let i = n - 1 - k;
            assert(n - 1 - i == k);
            assert(sol[ps[i] as int] == sol[ps[n - 1 - i] as int]);
            lemma_mirror_pair_keeps(g[ps[i] as int], g[ps[k] as int], digit_of(sol[ps[i] as int]));
        }
    }
    let h = overwrite(g, ps, vals);
    assert forall|i: int| 0 <= i < h.len() implies (#[trigger] sol[i]) is Digit && allows(h[i], digit_of(sol[i])) by {
        if exists|k: int| 0 <= k < ps.len() && ps[k] == i {
            let k = choose|k: int| 0 <= k < ps.len() && ps[k] == i;
            assert(allows(vals[k], digit_of(sol[ps[k] as int])));
        }
    }
}

impl Rule for PalindromeRule {
    open spec fn inv(&self) -> bool {
        &&& self.sets.len() > 0
        &&& self.counter < self.sets.len()
        &&& forall|s: int| 0 <= s < self.sets.len() ==> positions_ok(#[trigger] self.sets@[s]@)
    }

    open spec fn outcome(&self, g: Seq<Cell>) -> Option<Seq<Cell>> {
        palindrome_outcome(g, flats(self.sets@[self.counter as int]@))
    }

    open spec fn advanced(&self) -> Self {
        PalindromeRule {
            counter: ((self.counter + 1) % (self.sets.len() as int)) as usize,
            sets: self.sets,
        }
    }

    open spec fn satisfied(&self, g: Seq<Cell>) -> bool {
        forall|s: int| 0 <= s < self.sets.len() ==> mirrored(g, flats(#[trigger] self.sets@[s]@))
    }

    proof fn lemma_outcome(&self, g: Seq<Cell>) {
        let ps = self.sets@[self.counter as int]@;
        lemma_flats_ok(ps);
        lemma_palindrome_outcome(g, flats(ps));
        assert forall|sol: Seq<Cell>| #[trigger] agrees(g, sol) && self.satisfied(sol) implies self.outcome(
            g,
        ) is Some && agrees(self.outcome(g)->Some_0, sol) by {
            assert(mirrored(sol, flats(self.sets@[self.counter as int]@)));
            lemma_palindrome_keeps(g, flats(ps), sol);
        }
    }

    fn update_cells(&mut self, sudoku: &mut Sudoku) -> (r: Result<(), ()>) {
        proof {
            lemma_flats_ok(self.sets@[self.counter as int]@);
            sudoku.lemma_len();
        }
        let ps = self.next();
        let ghost g = sudoku@;
        let ghost line = flats(old(self).sets@[old(self).counter as int]@);
        let ghost out = old(self).outcome(old(sudoku)@);
        assert(out == palindrome_outcome(g, line));
        let n = ps.len();
        let mut vals: Vec<Cell> = Vec::new();
        let mut k: usize = 0;
        while k < n
            invariant
                k <= n,
                n == ps.len(),
                indices_ok(ps@),
                sudoku@ == g,
                g == old(sudoku)@,
                ps@ == line,
                *self == old(self).advanced(),
                g.len() == 81,
                vals@.len() == k,
                forall|j: int| 0 <= j < k ==> vals@[j] == g[ps@[j] as int],
            decreases n - k,
        {
            vals.push(sudoku.at(ps[k]));
            k = k + 1;
        }
        let mut i: usize = 0;
        while i < n / 2
            invariant
                i <= n / 2,
                n == ps.len(),
                indices_ok(ps@),
                sudoku@ == g,
                g == old(sudoku)@,
                ps@ == line,
                out == palindrome_outcome(g, line),
                out == old(self).outcome(old(sudoku)@),
                *self == old(self).advanced(),
                grid_wf(g),
                vals@.len() == n,
                forall|j: int| 0 <= j < i ==> !(#[trigger] mirror_pair(g[ps@[j] as int], g[ps@[n - 1 - j] as int]) is None),
                forall|j: int| 0 <= j < i ==> vals@[j] == #[trigger] mirror_vals(g, ps@)[j],
                forall|j: int| n - i <= j < n ==> vals@[j] == #[trigger] mirror_vals(g, ps@)[j],
                forall|j: int| i <= j < n - i ==> vals@[j] == #[trigger] g[ps@[j] as int],
            decreases n / 2 - i,
        {
            let a = sudoku.at(ps[i]);
            let b = sudoku.at(ps[n - 1 - i]);
            match apply_mirror(a, b) {
                None => {
                    assert(mirror_pair(g[ps@[i as int] as int], g[ps@[n - 1 - i] as int]) is None);
                    assert(mirror_fails(g, line));
                    assert(palindrome_outcome(g, line) is None);
                    return Err(());
                },
                Some((x, y)) => {
                    vals.set(i, x);
                    vals.set(n - 1 - i, y);
                    assert(mirror_vals(g, ps@)[i as int] == x);
                    assert(n - 1 - (n - 1 - i) == i);
                    assert(mirror_vals(g, ps@)[n - 1 - i] == y);
                },
            }
            i = i + 1;
        }
        assert(vals@ =~= mirror_vals(g, ps@));
        assert(!mirror_fails(g, ps@));
        sudoku.write_cells(&ps, &vals);
        Ok(())
    }

    fn holds(&self, sudoku: &Sudoku) -> (r: bool) {
        proof {
            sudoku.lemma_len();
        }
        let mut s: usize = 0;
        while s < self.sets.len()
            invariant
                s <= self.sets.len(),
                self.inv(),
                sudoku@.len() == 81,
                forall|t: int| 0 <= t < s ==> mirrored(sudoku@, flats(#[trigger] self.sets@[t]@)),
            decreases self.sets.len() - s,
        {
            proof {
                lemma_flats_ok(self.sets@[s as int]@);
            }
            let ps = flat_line(&self.sets[s]);
            let n = ps.len();
            let mut i: usize = 0;
            while i < n / 2
                invariant
                    i <= n / 2,
                    n == ps.len(),
                    indices_ok(ps@),
                    s < self.sets.len(),
                    ps@ == flats(self.sets@[s as int]@),
                    sudoku@.len() == 81,
                    forall|j: int| 0 <= j < i ==> sudoku@[ps@[j] as int] == #[trigger] sudoku@[ps@[n - 1 - j] as int],
                decreases n / 2 - i,
            {
                if sudoku.at(ps[i]) != sudoku.at(ps[n - 1 - i]) {
                    assert(!mirrored(sudoku@, flats(self.sets@[s as int]@)));
                    return false;
                }
                i = i + 1;
            }
            assert(mirrored(sudoku@, ps@));
            s = s + 1;
        }
        true
    }
}

} // verus!
