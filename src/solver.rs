use vstd::prelude::*;

use crate::cell::{
    allows, cell_wf, collapse, collapse_mask, lemma_collapse_refines, lemma_refines_narrows,
    option_count, refines, Cell,
};
use crate::grid::{
    complete, grid_wf, lemma_refines_grid_refl, lemma_refines_grid_trans, lemma_weight_sum,
    refines_grid, weight_sum, Sudoku,
};
use crate::mask::{mask_has, mask_len, mask_wf, Mask};
use crate::group::{agrees, digit_of};
use crate::rules::{classic_check, classic_valid, Rule};

verus! {

/// How a solve attempt ended.
pub enum SolveResult {
    /// Every cell holds a digit and every constraint is met.
    Solved(Sudoku),
    /// A contradiction proves that no completion exists.
    Unsolvable,
    /// Neither propagation nor elimination by contradiction makes progress.
    Stuck,
    /// The step budget ran out; the grid reached so far.
    LimitReached(Sudoku),
}

/// Every rule of the list is usable.
pub open spec fn rules_inv<R: Rule>(rules: Seq<R>) -> bool {
    forall|i: int| 0 <= i < rules.len() ==> (#[trigger] rules[i]).inv()
}

/// A complete grid meets every rule of the list.
pub open spec fn rules_satisfied<R: Rule>(rules: Seq<R>, g: Seq<Cell>) -> bool {
    forall|i: int| 0 <= i < rules.len() ==> (#[trigger] rules[i]).satisfied(g)
}

/// A complete grid in which every row, column and box holds each digit once
/// and every rule of the list is met.
pub open spec fn is_solution<R: Rule>(sol: Seq<Cell>, rules: Seq<R>) -> bool {
    classic_valid(sol) && rules_satisfied(rules, sol)
}

/// A completion that agrees with a complete grid is that grid.
pub proof fn lemma_agrees_complete(g: Seq<Cell>, sol: Seq<Cell>)
    requires
        complete(g),
        agrees(g, sol),
    ensures
        sol == g,
{
    assert forall|i: int| 0 <= i < g.len() implies sol[i] == g[i] by {
        assert(sol[i] is Digit && allows(g[i], digit_of(sol[i])));
    }
    assert(sol =~= g);
}

/// Two lists of rules that stand for the same constraints.
pub open spec fn same_constraints<R: Rule>(a: Seq<R>, b: Seq<R>) -> bool {
    &&& a.len() == b.len()
    &&& forall|i: int, h: Seq<Cell>| 0 <= i < a.len() ==> (#[trigger] b[i].satisfied(h)) == a[i].satisfied(h)
}

/// The rules and the grid after steps `t` to `total` of a pass, step `t`
/// applying rule `t % rules.len()` and moving it on to its next group; `None`
/// at the first contradiction.
pub open spec fn pass_from<R: Rule>(rules: Seq<R>, g: Seq<Cell>, t: nat, total: nat) -> Option<(Seq<R>, Seq<Cell>)>
    decreases total - t,
{
    if t >= total || rules.len() == 0 {
        Some((rules, g))
    } else {
        let i = (t % rules.len()) as int;
        match rules[i].outcome(g) {
            None => None,
            Some(h) => pass_from(rules.update(i, rules[i].advanced()), h, t + 1, total),
        }
    }
}

/// One pass: nine rounds in which every rule is applied in turn.
pub open spec fn pass<R: Rule>(rules: Seq<R>, g: Seq<Cell>) -> Option<(Seq<R>, Seq<Cell>)> {
    pass_from(rules, g, 0, 9 * rules.len())
}

/// One pass: every rule applied nine times in turn, each application counted as
/// one step. Stops at the first contradiction.
pub fn run_pass<R: Rule>(sudoku: &mut Sudoku, rules: &mut Vec<R>, counter: &mut usize) -> (r: Result<(), ()>)
    requires
        old(sudoku).wf(),
        rules_inv(old(rules)@),
        *old(counter) + 9 * old(rules).len() <= usize::MAX,
    ensures
        r is Ok <==> pass(old(rules)@, old(sudoku)@) is Some,
        r is Ok ==> (final(rules)@, final(sudoku)@) == pass(old(rules)@, old(sudoku)@)->Some_0,
        r is Ok ==> *final(counter) == *old(counter) + 9 * old(rules).len(),
        rules_inv(final(rules)@),
        same_constraints(old(rules)@, final(rules)@),
        *final(counter) <= *old(counter) + 9 * old(rules).len(),
        *final(counter) >= *old(counter),
        final(sudoku).wf(),
        refines_grid(old(sudoku)@, final(sudoku)@),
        complete(old(sudoku)@) && rules_satisfied(old(rules)@, old(sudoku)@) ==> r is Ok
            && final(sudoku)@ == old(sudoku)@,
        forall|sol: Seq<Cell>|
            #[trigger] agrees(old(sudoku)@, sol) && rules_satisfied(old(rules)@, sol) ==> r is Ok
                && agrees(final(sudoku)@, sol),
{
    let ghost g0 = sudoku@;
    let ghost rs0 = rules@;
    let ghost c0 = *counter;
    let ghost quiet = complete(g0) && rules_satisfied(rs0, g0);
    let n = rules.len();
    let total = 9 * n;
    proof {
        lemma_refines_grid_refl(g0);
    }
    let mut t: usize = 0;
    while t < total
        invariant
            t <= total,
            total == 9 * n,
            n == rules.len() == rs0.len(),
            c0 + 9 * n <= usize::MAX,
            rs0 == old(rules)@,
            c0 == *old(counter),
            g0 == old(sudoku)@,
            *counter == c0 + t,
            grid_wf(g0),
            sudoku.wf(),
            rules_inv(rules@),
            same_constraints(rs0, rules@),
            refines_grid(g0, sudoku@),
            quiet == (complete(g0) && rules_satisfied(rs0, g0)),
            quiet ==> sudoku@ == g0,
            forall|sol: Seq<Cell>| #[trigger] agrees(g0, sol) && rules_satisfied(rs0, sol) ==> agrees(sudoku@, sol),
            pass_from(rules@, sudoku@, t as nat, total as nat) == pass(rs0, g0),
        decreases total - t,
    {
        let i = t % n;
        let ghost before = sudoku@;
        let ghost rules_before = rules@;
        let mut rule = rules.remove(i);
        proof {
            assert(rule == rules_before[i as int]);
            rule.lemma_outcome(before);
            if quiet {
                assert(rule.satisfied(g0) == rs0[i as int].satisfied(g0));
            }
        }
        *counter = *counter + 1;
        let res = rule.update_cells(sudoku);
        rules.insert(i, rule);
        proof {
            assert(rules@ =~= rules_before.update(i as int, rule));
            lemma_refines_grid_trans(g0, before, sudoku@);
            assert forall|j: int, h: Seq<Cell>| 0 <= j < n implies (#[trigger] rules@[j].satisfied(h)) == rs0[j].satisfied(h) by {
                if j == i {
                    assert(rules_before[j].advanced().satisfied(h) == rules_before[j].satisfied(h));
                    assert(rules_before[j].satisfied(h) == rs0[j].satisfied(h));
                } else {
                    assert(rules_before[j].satisfied(h) == rs0[j].satisfied(h));
                }
            }
            assert forall|j: int| 0 <= j < n implies (#[trigger] rules@[j]).inv() by {
                if j != i {
                    assert(rules_before[j].inv());
                }
            }
            assert forall|sol: Seq<Cell>| #[trigger] agrees(g0, sol) && rules_satisfied(rs0, sol) implies res is Ok
                && agrees(sudoku@, sol) by {
                assert(agrees(before, sol));
                assert(rules_before[i as int].satisfied(sol) == rs0[i as int].satisfied(sol));
                assert(rs0[i as int].satisfied(sol));
            }
        }
        if res.is_err() {
            return Err(());
        }
        t = t + 1;
    }
    Ok(())
}

/// Whether a complete grid meets every rule of the list.
pub fn rules_hold<R: Rule>(sudoku: &Sudoku, rules: &Vec<R>) -> (r: bool)
    requires
        sudoku.wf(),
        complete(sudoku@),
        rules_inv(rules@),
    ensures
        r == rules_satisfied(rules@, sudoku@),
{
    let mut i: usize = 0;
    while i < rules.len()
        invariant
            i <= rules.len(),
            sudoku.wf(),
            complete(sudoku@),
            rules_inv(rules@),
            forall|j: int| 0 <= j < i ==> (#[trigger] rules@[j]).satisfied(sudoku@),
        decreases rules.len() - i,
    {
        if !rules[i].holds(sudoku) {
            return false;
        }
        i = i + 1;
    }
    true
}

/// The candidates of an open cell as a set (all nine for an empty cell).
pub open spec fn open_mask(c: Cell) -> Mask {
    match c {
        Cell::Empty => Mask(0x1ff),
        Cell::Pencil(m) => m,
        Cell::Digit(_) => Mask(0),
    }
}

/// The candidates of an open cell; `None` for a digit.
pub fn candidates(c: Cell) -> (r: Option<Mask>)
    ensures
        r is Some <==> !(c is Digit),
        r is Some ==> r->Some_0 == open_mask(c),
{
    match c {
        Cell::Empty => Some(Mask::all()),
        Cell::Pencil(m) => Some(m),
        Cell::Digit(_) => None,
    }
}

/// An open cell allows exactly the digits of its candidate set.
pub proof fn lemma_open_mask(c: Cell)
    requires
        cell_wf(c),
        !(c is Digit),
    ensures
        forall|e: int| #[trigger] allows(c, e) == mask_has(open_mask(c), e),
        mask_wf(open_mask(c)),
        c is Empty ==> mask_len(open_mask(c)) == 9,
{
    crate::mask::lemma_low_bits_set();
    if c is Empty {
        assert(mask_len(open_mask(c)) == 9) by {
            reveal_with_fuel(crate::mask::pop_upto, 10);
        }
    }
}

proof fn lemma_only_bit(x: u16, f: u16, n: nat)
    requires
        n <= 16,
        forall|j: u16| j < n && j != f ==> !#[trigger] crate::mask::bit(x, j),
    ensures
        crate::mask::pop_upto(x, n) <= 1,
        f >= n ==> crate::mask::pop_upto(x, n) == 0,
    decreases n,
{
    if n > 0 {
        lemma_only_bit(x, f, (n - 1) as nat);
        if (n - 1) as u16 == f {
            crate::mask::lemma_pop_positive(x, (n - 1) as nat);
        }
    }
}

/// A set of at least two digits holds two different digits.
pub proof fn lemma_two_digits(m: Mask)
    requires
        mask_len(m) >= 2,
    ensures
        exists|a: int, b: int| a != b && #[trigger] mask_has(m, a) && #[trigger] mask_has(m, b),
{
    crate::mask::lemma_pop_positive(m.0, 9);
    crate::mask::lemma_first_bit(m.0, 0);
    let f = crate::mask::first_bit_from(m.0, 0) as u16;
    if !(exists|j: u16| j < 9 && j != f && #[trigger] crate::mask::bit(m.0, j)) {
        lemma_only_bit(m.0, f, 9);
    }
    let j = choose|j: u16| j < 9 && j != f && #[trigger] crate::mask::bit(m.0, j);
    assert(mask_has(m, f + 1) && mask_has(m, j + 1));
}

/// An open cell that loses one of its candidates is strictly refined.
proof fn lemma_strike_digit(g: Seq<Cell>, i: int, m: Mask, d: u8, nm: Mask)
    requires
        grid_wf(g),
        0 <= i < 81,
        !(g[i] is Digit),
        open_mask(g[i]) == m,
        1 <= d <= 9,
        mask_has(m, d as int),
        forall|e: int| #[trigger] mask_has(nm, e) == (mask_has(m, e) && e != d),
        mask_wf(nm),
        mask_len(nm) > 0,
    ensures
        refines_grid(g, g.update(i, collapse(nm))),
        grid_wf(g.update(i, collapse(nm))),
        weight_sum(g.update(i, collapse(nm))) < weight_sum(g),
{
    lemma_open_mask(g[i]);
    if g[i] is Pencil {
        lemma_collapse_refines(nm, g[i]);
    } else {
        crate::cell::lemma_collapse(nm);
    }
    let h = g.update(i, collapse(nm));
    assert(h[i] != g[i]) by {
        if collapse(nm) == g[i] {
            assert(nm == m);
            assert(!mask_has(nm, d as int));
        }
    }
    assert forall|j: int| 0 <= j < 81 implies cell_wf(#[trigger] h[j]) by {
        lemma_refines_narrows(g[j], h[j]);
    }
    lemma_weight_sum(g, h);
}

/// Some completion that agrees with `g` and meets the rules holds digit `e` at cell `j`.
pub open spec fn extends_to_solution<R: Rule>(g: Seq<Cell>, rules: Seq<R>, j: int, e: int) -> bool {
    exists|s: Seq<Cell>| #[trigger] agrees(g, s) && is_solution(s, rules) && s[j] == Cell::Digit(e as u8)
}

/// A complete refinement of a grid agrees with it.
proof fn lemma_refines_complete_agrees(a: Seq<Cell>, s: Seq<Cell>)
    requires
        grid_wf(a),
        refines_grid(a, s),
        complete(s),
    ensures
        agrees(a, s),
{
    assert forall|j: int| 0 <= j < a.len() implies (#[trigger] s[j]) is Digit && allows(a[j], digit_of(s[j])) by {
        lemma_refines_narrows(a[j], s[j]);
    }
}

/// A completion that agrees with a trial grid (an open cell forced to `d`)
/// agrees with the grid the trial was made from, and holds `d` there.
proof fn lemma_trial_solution(g0: Seq<Cell>, fixed: Seq<Cell>, i: int, d: int, trial: Seq<Cell>, s: Seq<Cell>)
    requires
        grid_wf(g0),
        refines_grid(g0, fixed),
        0 <= i < 81,
        1 <= d <= 9,
        allows(fixed[i], d),
        trial == fixed.update(i, Cell::Digit(d as u8)),
        agrees(trial, s),
    ensures
        agrees(g0, s),
        s[i] == Cell::Digit(d as u8),
{
    assert forall|j: int| 0 <= j < g0.len() implies (#[trigger] s[j]) is Digit && allows(g0[j], digit_of(s[j])) by {
        assert(s[j] is Digit && allows(trial[j], digit_of(s[j])));
        assert(allows(fixed[j], digit_of(s[j])));
        lemma_refines_narrows(g0[j], fixed[j]);
    }
    assert(s[i] is Digit && allows(trial[i], digit_of(s[i])));
}

/// Runs passes until the grid is solved, disproved, stuck or out of budget. At a
/// fixpoint each open cell is visited in row-major order: a cell with one
/// candidate takes it, a cell with none disproves the grid, and otherwise each
/// candidate digit, ascending, is tried on a copy of the grid; a digit whose copy
/// proves unsolvable is struck from the real cell. The counter counts rule
/// applications across all copies; a pass only starts while it is below `limit`,
/// and running out of budget in a copy stops the whole call.
pub fn solve_sudoku<R: Rule>(sudoku: Sudoku, rules: &mut Vec<R>, counter: &mut usize, limit: usize) -> (r: SolveResult)
    requires
        sudoku.wf(),
        rules_inv(old(rules)@),
        limit + 9 * old(rules).len() <= usize::MAX,
        *old(counter) <= limit + 9 * old(rules).len(),
    ensures
        rules_inv(final(rules)@),
        same_constraints(old(rules)@, final(rules)@),
        *old(counter) <= *final(counter) <= limit + 9 * old(rules).len(),
        r matches SolveResult::Solved(g) ==> g.wf() && complete(g@) && classic_valid(g@)
            && rules_satisfied(old(rules)@, g@) && refines_grid(sudoku@, g@),
        r matches SolveResult::LimitReached(g) ==> g.wf() && refines_grid(sudoku@, g@)
            && *final(counter) >= limit,
        r matches SolveResult::LimitReached(g) ==> forall|sol: Seq<Cell>|
            #[trigger] agrees(sudoku@, sol) && is_solution(sol, old(rules)@) ==> agrees(g@, sol),
        r is Unsolvable ==> forall|sol: Seq<Cell>| #[trigger] agrees(sudoku@, sol) ==> !is_solution(sol, old(rules)@),
        r is Stuck ==> exists|s1: Seq<Cell>, s2: Seq<Cell>|
            s1 != s2 && #[trigger] agrees(sudoku@, s1) && #[trigger] agrees(sudoku@, s2) && is_solution(s1, old(rules)@)
                && is_solution(s2, old(rules)@),
        // an input that is already solved comes back after one pass
        *old(counter) < limit && complete(sudoku@) && classic_valid(sudoku@) && rules_satisfied(
            old(rules)@,
            sudoku@,
        ) ==> (r matches SolveResult::Solved(g) && g@ == sudoku@) && *final(counter) == *old(counter) + 9
            * old(rules).len(),
        // the budget is spent before any pass
        *old(counter) >= limit ==> (r matches SolveResult::LimitReached(g) && g@ == sudoku@)
            && *final(counter) == *old(counter),
        // the first pass meets a contradiction
        *old(counter) < limit && pass(old(rules)@, sudoku@) is None ==> r is Unsolvable,
        // the first pass completes the grid
        *old(counter) < limit && pass(old(rules)@, sudoku@) is Some && complete(pass(old(rules)@, sudoku@)->Some_0.1)
            ==> *final(counter) == *old(counter) + 9 * old(rules).len() && if classic_valid(
            pass(old(rules)@, sudoku@)->Some_0.1,
        ) && rules_satisfied(old(rules)@, pass(old(rules)@, sudoku@)->Some_0.1) {
            r matches SolveResult::Solved(g) && g@ == pass(old(rules)@, sudoku@)->Some_0.1
        } else {
            r is Unsolvable
        },
        // the first pass changes the grid and uses up the budget
        *old(counter) < limit && *old(counter) + 9 * old(rules).len() >= limit && pass(old(rules)@, sudoku@) is Some
            && !complete(pass(old(rules)@, sudoku@)->Some_0.1) && pass(old(rules)@, sudoku@)->Some_0.1 != sudoku@ ==> (
        r matches SolveResult::LimitReached(g) && g@ == pass(old(rules)@, sudoku@)->Some_0.1)
            && *final(counter) == *old(counter) + 9 * old(rules).len(),
    decreases weight_sum(sudoku@),
{
    let ghost g0 = sudoku@;
    let ghost rs0 = rules@;
    let ghost c0 = *counter;
    let ghost p0 = pass(rs0, g0);
    let ghost settled = c0 < limit && complete(g0) && classic_valid(g0) && rules_satisfied(rs0, g0);
    let n = rules.len();
    let mut grid = sudoku;
    let ghost mut first = true;
    proof {
        lemma_refines_grid_refl(g0);
    }
    loop
        invariant
            n == rules.len() == rs0.len(),
            limit + 9 * n <= usize::MAX,
            rs0 == old(rules)@,
            c0 == *old(counter),
            g0 == sudoku@,
            p0 == pass(rs0, g0),
            c0 <= *counter <= limit + 9 * n,
            grid_wf(g0),
            grid.wf(),
            rules_inv(rules@),
            same_constraints(rs0, rules@),
            refines_grid(g0, grid@),
            weight_sum(grid@) <= weight_sum(g0),
            forall|sol: Seq<Cell>| #[trigger] agrees(g0, sol) && is_solution(sol, rs0) ==> agrees(grid@, sol),
            first ==> grid@ == g0 && *counter == c0 && rules@ == rs0,
            !first ==> c0 < limit,
            settled == (c0 < limit && complete(g0) && classic_valid(g0) && rules_satisfied(rs0, g0)),
            settled ==> first,
            !first ==> p0 is Some && !complete(p0->Some_0.1),
            !first ==> (p0 is Some && !complete(p0->Some_0.1) && p0->Some_0.1 != g0 && c0 + 9 * n >= limit
                ==> grid@ == p0->Some_0.1 && *counter == c0 + 9 * n),
        decreases weight_sum(grid@),
    {
        if *counter >= limit {
            return SolveResult::LimitReached(grid);
        }
        let ghost start = grid@;
        let ghost count_start = *counter;
        let before = grid.clone();
        let ghost rules_before_pass = rules@;
        proof {
            if settled {
                assert forall|i: int| 0 <= i < n implies (#[trigger] rules@[i]).satisfied(g0) by {
                    assert(rs0[i].satisfied(g0));
                }
            }
        }
        let pass_result = run_pass(&mut grid, rules, counter);
        proof {
            lemma_refines_grid_trans(g0, start, grid@);
            lemma_weight_sum(start, grid@);
            assert forall|sol: Seq<Cell>| #[trigger] agrees(g0, sol) && is_solution(sol, rs0) implies pass_result is Ok
                && agrees(grid@, sol) by {
                assert(agrees(start, sol));
                assert forall|j: int| 0 <= j < n implies (#[trigger] rules_before_pass[j]).satisfied(sol) by {
                    assert(rs0[j].satisfied(sol));
                }
            }
        }
        if pass_result.is_err() {
            return SolveResult::Unsolvable;
        }
        if grid.is_complete() {
            if classic_check(&grid) && rules_hold(&grid, rules) {
                proof {
                    assert forall|i: int| 0 <= i < n implies (#[trigger] rs0[i]).satisfied(grid@) by {
                        assert(rules@[i].satisfied(grid@));
                    }
                }
                return SolveResult::Solved(grid);
            }
            proof {
                assert forall|sol: Seq<Cell>| #[trigger] agrees(g0, sol) implies !is_solution(sol, rs0) by {
                    if is_solution(sol, rs0) {
                        lemma_agrees_complete(grid@, sol);
                        assert forall|j: int| 0 <= j < n implies (#[trigger] rules@[j]).satisfied(grid@) by {
                            assert(rs0[j].satisfied(sol));
                        }
                    }
                }
                if first && rules_satisfied(rs0, grid@) {
                    assert forall|j: int| 0 <= j < n implies (#[trigger] rules@[j]).satisfied(grid@) by {
                        assert(rs0[j].satisfied(grid@));
                    }
                }
            }
            return SolveResult::Unsolvable;
        }
        if !grid.same_as(&before) {
            proof {
                if first {
                    assert(rules_before_pass == rs0 && start == g0);
                }
                first = false;
            }
            continue;
        }
        let ghost fixed = grid@;
        let ghost moot = p0 is Some && !complete(p0->Some_0.1) && !(c0 + 9 * n >= limit && p0->Some_0.1 != g0);
        proof {
            if first {
                assert(rules_before_pass == rs0 && start == g0);
                assert(p0->Some_0.1 == grid@);
            }
            assert(moot);
        }
        let mut progress = false;
        let mut i: usize = 0;
        while i < 81
            invariant
                i <= 81,
                n == rules.len() == rs0.len(),
                limit + 9 * n <= usize::MAX,
                rs0 == old(rules)@,
                c0 == *old(counter),
                g0 == sudoku@,
                c0 <= *counter <= limit + 9 * n,
                c0 < limit,
                moot,
                !settled,
                settled == (c0 < limit && complete(g0) && classic_valid(g0) && rules_satisfied(rs0, g0)),
                moot == (p0 is Some && !complete(p0->Some_0.1) && !(c0 + 9 * n >= limit && p0->Some_0.1 != g0)),
                p0 == pass(rs0, g0),
                grid_wf(g0),
                grid.wf(),
                rules_inv(rules@),
                same_constraints(rs0, rules@),
                refines_grid(g0, fixed),
                refines_grid(fixed, grid@),
                weight_sum(fixed) <= weight_sum(g0),
                weight_sum(grid@) <= weight_sum(fixed),
                progress ==> weight_sum(grid@) < weight_sum(fixed),
                grid_wf(fixed),
                fixed.len() == 81,
                forall|sol: Seq<Cell>| #[trigger] agrees(g0, sol) && is_solution(sol, rs0) ==> agrees(grid@, sol),
                !progress ==> grid@ == fixed,
                !progress ==> forall|j: int| 0 <= j < i && !(fixed[j] is Digit) ==> option_count(#[trigger] fixed[j]) >= 2,
                !progress ==> forall|j: int, e: int|
                    0 <= j < i && !(fixed[j] is Digit) && #[trigger] allows(fixed[j], e) ==> extends_to_solution(g0, rs0, j, e),
            decreases 81 - i,
        {
            let opt = candidates(grid.at(i));
            if let Some(m0) = opt {
                proof {
                    lemma_open_mask(grid@[i as int]);
                }
                let k = m0.len();
                if k == 0 {
                    proof {
                        assert forall|sol: Seq<Cell>| #[trigger] agrees(g0, sol) implies !is_solution(sol, rs0) by {
                            if is_solution(sol, rs0) {
                                let v = digit_of(sol[i as int]);
                                assert(agrees(grid@, sol));
                                assert(mask_has(m0, v));
                                crate::mask::lemma_pop_positive(m0.0, 9);
                                assert(crate::mask::bit(m0.0, (v - 1) as u16) && ((v - 1) as u16) < 9);
                            }
                        }
                    }
                    return SolveResult::Unsolvable;
                } else if k == 1 {
                    let ghost pre = grid@;
                    grid.put(i, collapse_mask(m0));
                    proof {
                        crate::cell::lemma_collapse(m0);
                        assert(pre[i as int] is Pencil);
                        lemma_collapse_refines(m0, pre[i as int]);
                        let h = grid@;
                        assert(h == pre.update(i as int, collapse(m0)));
                        assert forall|j: int| 0 <= j < 81 implies cell_wf(#[trigger] h[j]) by {
                            lemma_refines_narrows(pre[j], h[j]);
                        }
                        assert(h[i as int] is Digit);
                        lemma_weight_sum(pre, h);
                        lemma_refines_grid_trans(fixed, pre, h);
                        assert forall|sol: Seq<Cell>| #[trigger] agrees(g0, sol) && is_solution(sol, rs0) implies agrees(h, sol) by {
                            assert(agrees(pre, sol));
                            crate::cell::lemma_collapse_allows(m0, digit_of(sol[i as int]));
                        }
                    }
                    progress = true;
                } else {
                    let mut d: u8 = 1;
                    while d <= 9
                        invariant
                            i < 81,
                            1 <= d <= 10,
                            n == rules.len() == rs0.len(),
                            limit + 9 * n <= usize::MAX,
                            rs0 == old(rules)@,
                            c0 == *old(counter),
                            g0 == sudoku@,
                            c0 <= *counter <= limit + 9 * n,
                            c0 < limit,
                            moot,
                            !settled,
                            settled == (c0 < limit && complete(g0) && classic_valid(g0) && rules_satisfied(rs0, g0)),
                settled == (c0 < limit && complete(g0) && classic_valid(g0) && rules_satisfied(rs0, g0)),
                            moot == (p0 is Some && !complete(p0->Some_0.1) && !(c0 + 9 * n >= limit && p0->Some_0.1 != g0)),
                            p0 == pass(rs0, g0),
                            grid_wf(g0),
                            grid.wf(),
                            rules_inv(rules@),
                            same_constraints(rs0, rules@),
                            refines_grid(g0, fixed),
                            refines_grid(fixed, grid@),
                            weight_sum(fixed) <= weight_sum(g0),
                            weight_sum(grid@) <= weight_sum(fixed),
                            progress ==> weight_sum(grid@) < weight_sum(fixed),
                            grid_wf(fixed),
                            fixed.len() == 81,
                            forall|sol: Seq<Cell>| #[trigger] agrees(g0, sol) && is_solution(sol, rs0) ==> agrees(grid@, sol),
                            !progress ==> grid@ == fixed,
                            !progress ==> !(fixed[i as int] is Digit) && option_count(fixed[i as int]) >= 2,
                            !progress ==> forall|j: int| 0 <= j < i && !(fixed[j] is Digit) ==> option_count(#[trigger] fixed[j]) >= 2,
                            !progress ==> forall|j: int, e: int|
                                0 <= j < i && !(fixed[j] is Digit) && #[trigger] allows(fixed[j], e) ==> extends_to_solution(g0, rs0, j, e),
                            !progress ==> forall|e: int|
                                1 <= e < d && #[trigger] allows(fixed[i as int], e) ==> extends_to_solution(g0, rs0, i as int, e),
                        decreases 10 - d,
                    {
                        let cur = candidates(grid.at(i));
                        if let Some(m) = cur {
                            proof {
                                lemma_open_mask(grid@[i as int]);
                            }
                            if m.has_digit(d) {
                                let mut trial = grid.clone();
                                trial.put(i, Cell::Digit(d));
                                proof {
                                    let h = trial@;
                                    assert(allows(grid@[i as int], d as int));
                                    assert(refines(grid@[i as int], h[i as int]));
                                    assert forall|j: int| 0 <= j < 81 implies cell_wf(#[trigger] h[j]) by {
                                        lemma_refines_narrows(grid@[j], h[j]);
                                    }
                                    assert(refines_grid(grid@, h));
                                    lemma_weight_sum(grid@, h);
                                }
                                let ghost rules_before = rules@;
                                let outcome = solve_sudoku(trial, rules, counter, limit);
                                proof {
                                    assert forall|j: int, h: Seq<Cell>| 0 <= j < n implies (#[trigger] rules@[j].satisfied(h)) == rs0[j].satisfied(h) by {
                                        assert(rules@[j].satisfied(h) == rules_before[j].satisfied(h));
                                    }
                                }
                                match outcome {
                                    SolveResult::Unsolvable => {
                                        let nm = m.without(d);
                                        proof {
                                            assert forall|sol: Seq<Cell>| #[trigger] agrees(g0, sol) && is_solution(sol, rs0) implies mask_has(
                                                nm,
                                                digit_of(sol[i as int]),
                                            ) by {
                                                assert(agrees(grid@, sol));
                                                let v = digit_of(sol[i as int]);
                                                assert(mask_has(m, v));
                                                if v == d as int {
                                                    assert(agrees(trial@, sol));
                                                    assert forall|j: int| 0 <= j < n implies (#[trigger] rules_before[j]).satisfied(sol) by {
                                                        assert(rs0[j].satisfied(sol));
                                                    }
                                                }
                                            }
                                        }
                                        if nm.len() == 0 {
                                            proof {
                                                assert forall|sol: Seq<Cell>| #[trigger] agrees(g0, sol) implies !is_solution(sol, rs0) by {
                                                    if is_solution(sol, rs0) {
                                                        let v = digit_of(sol[i as int]);
                                                        assert(mask_has(nm, v));
                                                        crate::mask::lemma_pop_positive(nm.0, 9);
                                                        assert(crate::mask::bit(nm.0, (v - 1) as u16) && ((v - 1) as u16) < 9);
                                                    }
                                                }
                                            }
                                            return SolveResult::Unsolvable;
                                        }
                                        let ghost pre = grid@;
                                        grid.put(i, collapse_mask(nm));
                                        proof {
                                            lemma_strike_digit(pre, i as int, m, d, nm);
                                            lemma_refines_grid_trans(fixed, pre, grid@);
                                            assert forall|sol: Seq<Cell>| #[trigger] agrees(g0, sol) && is_solution(sol, rs0) implies agrees(
                                                grid@,
                                                sol,
                                            ) by {
                                                assert(agrees(pre, sol));
                                                crate::cell::lemma_collapse_allows(nm, digit_of(sol[i as int]));
                                            }
                                        }
                                        progress = true;
                                    },
                                    SolveResult::LimitReached(_) => {
                                        proof {
                                            lemma_refines_grid_trans(g0, fixed, grid@);
                                        }
                                        return SolveResult::LimitReached(grid);
                                    },
                                    SolveResult::Solved(sg) => {
                                        proof {
                                            if !progress {
                                                lemma_refines_complete_agrees(trial@, sg@);
                                                lemma_trial_solution(g0, fixed, i as int, d as int, trial@, sg@);
                                                assert forall|j: int| 0 <= j < n implies (#[trigger] rs0[j]).satisfied(sg@) by {
                                                    assert(rules_before[j].satisfied(sg@));
                                                }
                                                assert(agrees(g0, sg@) && is_solution(sg@, rs0) && sg@[i as int] == Cell::Digit(d));
                                            }
                                        }
                                    },
                                    SolveResult::Stuck => {
                                        proof {
                                            if !progress {
                                                let s1 = choose|s1: Seq<Cell>| exists|s2: Seq<Cell>|
                                                    s1 != s2 && #[trigger] agrees(trial@, s1) && #[trigger] agrees(trial@, s2)
                                                        && is_solution(s1, rules_before) && is_solution(s2, rules_before);
                                                lemma_trial_solution(g0, fixed, i as int, d as int, trial@, s1);
                                                assert forall|j: int| 0 <= j < n implies (#[trigger] rs0[j]).satisfied(s1) by {
                                                    assert(rules_before[j].satisfied(s1));
                                                }
                                                assert(agrees(g0, s1) && is_solution(s1, rs0) && s1[i as int] == Cell::Digit(d));
                                            }
                                        }
                                    },
                                }
                            }
                        }
                        d = d + 1;
                    }
                }
            }
            i = i + 1;
        }
        if !progress {
            proof {
                assert(!complete(fixed));
                let j = choose|j: int| 0 <= j < 81 && !(#[trigger] fixed[j] is Digit);
                lemma_open_mask(fixed[j]);
                let (a, b) = if fixed[j] is Empty {
                    (1int, 2int)
                } else {
                    lemma_two_digits(open_mask(fixed[j]));
                    choose|a: int, b: int| a != b && #[trigger] mask_has(open_mask(fixed[j]), a) && #[trigger] mask_has(open_mask(fixed[j]), b)
                };
                assert(allows(fixed[j], a) && allows(fixed[j], b));
                let s1 = choose|s: Seq<Cell>| #[trigger] agrees(g0, s) && is_solution(s, rs0) && s[j] == Cell::Digit(a as u8);
                let s2 = choose|s: Seq<Cell>| #[trigger] agrees(g0, s) && is_solution(s, rs0) && s[j] == Cell::Digit(b as u8);
                assert(s1[j] != s2[j]);
                assert(s1 != s2);
            }
            return SolveResult::Stuck;
        }
        proof {
            lemma_refines_grid_trans(g0, fixed, grid@);
            first = false;
        }
    }
}

/// Passes only narrow: when a grid is followed by one that refines it (as
/// `run_pass` guarantees of the grid after a pass), no cell gains a candidate
/// and no cell's number of candidates grows.
pub proof fn lemma_passes_narrow(before: Seq<Cell>, after: Seq<Cell>)
    requires
        grid_wf(before),
        refines_grid(before, after),
    ensures
        forall|i: int| 0 <= i < 81 ==> option_count(#[trigger] after[i]) <= option_count(before[i]),
        forall|i: int, d: int| 0 <= i < 81 && #[trigger] allows(after[i], d) ==> allows(before[i], d),
{
    assert forall|i: int| 0 <= i < 81 implies option_count(#[trigger] after[i]) <= option_count(before[i])
        && forall|d: int| #[trigger] allows(after[i], d) ==> allows(before[i], d) by {
        lemma_refines_narrows(before[i], after[i]);
    }
}

} // verus!
