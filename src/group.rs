use vstd::prelude::*;

use crate::cell::{allows, cell_wf, collapse, collapse_mask, lemma_collapse_refines, refines, Cell};
use crate::grid::{
    complete, grid_wf, indices_ok, lemma_overwrite_refines, lemma_overwrite_same, overwrite,
    refines_grid, Pos, Sudoku,
};
use crate::mask::{
    bit, count_digits, first_bit_from, lemma_and_low, lemma_bits_and, lemma_bits_not, lemma_bits_or,
    lemma_bits_single, lemma_low_bits_set, lemma_pop_add_bit, lemma_pop_clear_above, lemma_pop_one,
    lemma_pop_positive, lemma_pop_upto_subset, mask_has, mask_len, pop9, pop_upto, Mask,
};

verus! {

/// The cells of `g` at the indices `ps`, in order.
pub open spec fn cells_at(g: Seq<Cell>, ps: Seq<usize>) -> Seq<Cell> {
    Seq::new(ps.len(), |k: int| g[ps[k] as int])
}

/// The digits that no cell among the first `n` of `cs` holds, as digit bits.
pub open spec fn allowed_upto(cs: Seq<Cell>, n: nat) -> u16
    decreases n,
{
    if n == 0 {
        0x1ffu16
    } else {
        match cs[n - 1] {
            Cell::Digit(d) => allowed_upto(cs, (n - 1) as nat) & !(1u16 << ((d - 1) as u16)),
            _ => allowed_upto(cs, (n - 1) as nat),
        }
    }
}

/// The candidate bits of an open cell once the digits fixed in its group are taken out.
pub open spec fn base_mask(c: Cell, allowed: u16) -> u16 {
    match c {
        Cell::Empty => allowed,
        Cell::Pencil(m) => m.0 & allowed,
        Cell::Digit(_) => 0,
    }
}

/// The open cells among the first `n` of `cs`: their slot in the group, and their
/// candidate bits narrowed to `allowed`.
pub open spec fn open_upto(cs: Seq<Cell>, allowed: u16, n: nat) -> Seq<(usize, u16)>
    decreases n,
{
    if n == 0 {
        seq![]
    } else if cs[n - 1] is Digit {
        open_upto(cs, allowed, (n - 1) as nat)
    } else {
        open_upto(cs, allowed, (n - 1) as nat).push(((n - 1) as usize, base_mask(cs[n - 1], allowed)))
    }
}

/// Union of the masks that `sub` picks among the first `n`.
pub open spec fn union_upto(masks: Seq<u16>, sub: u16, n: nat) -> u16
    decreases n,
{
    if n == 0 {
        0u16
    } else if bit(sub, (n - 1) as u16) {
        union_upto(masks, sub, (n - 1) as nat) | masks[n - 1]
    } else {
        union_upto(masks, sub, (n - 1) as nat)
    }
}

/// Union of the masks that `sub` picks.
pub open spec fn union_of(masks: Seq<u16>, sub: u16) -> u16 {
    union_upto(masks, sub, masks.len())
}

/// `sub` picks two to four of the masks, and together they hold exactly as many
/// digits as cells: a naked pair, triple or quad.
pub open spec fn is_naked(masks: Seq<u16>, sub: u16) -> bool {
    &&& sub < 512
    &&& forall|i: u16| masks.len() <= i < 9 ==> !#[trigger] bit(sub, i)
    &&& 2 <= pop9(sub) <= 4
    &&& pop9(union_of(masks, sub)) == pop9(sub)
}

/// The digits that the naked subsets among the first `s` subsets confine away
/// from cell `c`: those of every naked subset that leaves `c` out.
pub open spec fn removed_upto(masks: Seq<u16>, c: nat, s: nat) -> u16
    decreases s,
{
    if s == 0 {
        0u16
    } else if is_naked(masks, (s - 1) as u16) && !bit((s - 1) as u16, c as u16) {
        removed_upto(masks, c, (s - 1) as nat) | union_of(masks, (s - 1) as u16)
    } else {
        removed_upto(masks, c, (s - 1) as nat)
    }
}

/// The candidates of open cell `c` once every naked subset has been applied.
pub open spec fn narrowed(masks: Seq<u16>, c: nat) -> u16 {
    masks[c as int] & !removed_upto(masks, c, 512)
}

/// The open cells of the group `ps` of `g`.
pub open spec fn group_open(g: Seq<Cell>, ps: Seq<usize>) -> Seq<(usize, u16)> {
    let cs = cells_at(g, ps);
    open_upto(cs, allowed_upto(cs, cs.len()), cs.len())
}

pub open spec fn open_masks(open: Seq<(usize, u16)>) -> Seq<u16> {
    open.map_values(|e: (usize, u16)| e.1)
}

/// One application of the group rule to the cells `ps` of `g`: `None` when some
/// open cell is left with no candidate, else the grid with every open cell of
/// the group replaced by its narrowed candidates (a digit when one is left).
pub open spec fn group_outcome(g: Seq<Cell>, ps: Seq<usize>) -> Option<Seq<Cell>> {
    let open = group_open(g, ps);
    let masks = open_masks(open);
    if exists|c: int| 0 <= c < open.len() && pop9(#[trigger] narrowed(masks, c as nat)) == 0 {
        None
    } else {
        Some(
            overwrite(
                g,
                open.map_values(|e: (usize, u16)| ps[e.0 as int]),
                Seq::new(open.len(), |c: int| collapse(Mask(narrowed(masks, c as nat)))),
            ),
        )
    }
}

/// Union of the masks that `sub` picks.
pub fn union_mask(masks: &Vec<u16>, sub: u16) -> (r: u16)
    requires
        masks.len() <= 9,
    ensures
        r == union_of(masks@, sub),
{
    let mut u: u16 = 0;
    let mut i: usize = 0;
    while i < masks.len()
        invariant
            i <= masks.len() <= 9,
            u == union_upto(masks@, sub, i as nat),
        decreases masks.len() - i,
    {
        if (sub >> (i as u16)) & 1 == 1 {
            u = u | masks[i];
        }
        i = i + 1;
    }
    u
}

/// Whether `sub` picks a naked pair, triple or quad among the masks.
pub fn naked_check(masks: &Vec<u16>, sub: u16) -> (r: bool)
    requires
        masks.len() <= 9,
    ensures
        r == is_naked(masks@, sub),
{
    if sub >= 512 {
        return false;
    }
    let mut i: u16 = masks.len() as u16;
    while i < 9
        invariant
            masks.len() <= i <= 9,
            forall|j: u16| masks.len() <= j < i ==> !#[trigger] bit(sub, j),
        decreases 9 - i,
    {
        if (sub >> i) & 1 == 1 {
            assert(bit(sub, i));
            return false;
        }
        i = i + 1;
    }
    let k = count_digits(sub);
    if k < 2 || k > 4 {
        return false;
    }
    let u = union_mask(masks, sub);
    count_digits(u) == k
}

pub proof fn lemma_allowed_low(cs: Seq<Cell>, n: nat)
    requires
        n <= cs.len(),
    ensures
        allowed_upto(cs, n) < 512,
    decreases n,
{
    if n > 0 {
        lemma_allowed_low(cs, (n - 1) as nat);
        match cs[n - 1] {
            Cell::Digit(d) => {
                lemma_and_low(allowed_upto(cs, (n - 1) as nat), !(1u16 << ((d - 1) as u16)));
            },
            _ => {},
        }
    }
}

/// What the open list records: increasing slots of open cells, each with its base mask.
pub proof fn lemma_open_upto(cs: Seq<Cell>, allowed: u16, n: nat)
    requires
        n <= cs.len(),
        n <= 9,
    ensures
        open_upto(cs, allowed, n).len() <= n,
        forall|c: int|
            0 <= c < open_upto(cs, allowed, n).len() ==> {
                let e = #[trigger] open_upto(cs, allowed, n)[c];
                &&& e.0 < n
                &&& !(cs[e.0 as int] is Digit)
                &&& e.1 == base_mask(cs[e.0 as int], allowed)
            },
        forall|c: int, d: int|
            0 <= c < d < open_upto(cs, allowed, n).len() ==> open_upto(cs, allowed, n)[c].0
                < open_upto(cs, allowed, n)[d].0,
        forall|k: int| 0 <= k < n && !(cs[k] is Digit) ==> exists|c: int|
            0 <= c < open_upto(cs, allowed, n).len() && #[trigger] open_upto(cs, allowed, n)[c].0
                == k,
    decreases n,
{
    if n > 0 {
        lemma_open_upto(cs, allowed, (n - 1) as nat);
        let prev = open_upto(cs, allowed, (n - 1) as nat);
        let cur = open_upto(cs, allowed, n);
        assert forall|k: int| 0 <= k < n && !(cs[k] is Digit) implies exists|c: int|
            0 <= c < cur.len() && #[trigger] cur[c].0 == k by {
            if k < n - 1 {
                let c = choose|c: int| 0 <= c < prev.len() && #[trigger] prev[c].0 == k;
                assert(cur[c] == prev[c]);
            } else {
                assert(cur[cur.len() - 1] == ((n - 1) as usize, base_mask(cs[n - 1], allowed)));
                assert(cur[cur.len() - 1].0 == k);
            }
        }
    }
}

/// The open list of a group of digits only is empty.
pub proof fn lemma_open_complete(cs: Seq<Cell>, allowed: u16, n: nat)
    requires
        n <= cs.len(),
        forall|k: int| 0 <= k < cs.len() ==> (#[trigger] cs[k]) is Digit,
    ensures
        open_upto(cs, allowed, n).len() == 0,
    decreases n,
{
    if n > 0 {
        lemma_open_complete(cs, allowed, (n - 1) as nat);
    }
}

/// Applies the group rule to the cells `ps`: digits fixed in the group leave the
/// other cells, naked subsets confine their digits, a cell left with one
/// candidate becomes a digit, and a cell left with none is a contradiction.
pub fn update_group(sudoku: &mut Sudoku, ps: &[usize; 9]) -> (r: Result<(), ()>)
    requires
        old(sudoku).wf(),
        indices_ok(ps@),
    ensures
        r is Ok <==> group_outcome(old(sudoku)@, ps@) is Some,
        r is Ok ==> final(sudoku)@ == group_outcome(old(sudoku)@, ps@)->Some_0,
        r is Err ==> final(sudoku)@ == old(sudoku)@,
{
    let ghost g = sudoku@;
    let ghost cs = cells_at(g, ps@);
    proof {
        sudoku.lemma_len();
    }
    let mut allowed: u16 = 0x1ff;
    let mut k: usize = 0;
    while k < 9
        invariant
            k <= 9,
            sudoku@ == g,
            g.len() == 81,
            grid_wf(g),
            indices_ok(ps@),
            cs == cells_at(g, ps@),
            allowed == allowed_upto(cs, k as nat),
        decreases 9 - k,
    {
        match sudoku.at(ps[k]) {
            Cell::Digit(d) => {
                allowed = allowed & !(1u16 << ((d - 1) as u16));
            },
            _ => {},
        }
        k = k + 1;
    }
    let ghost open_spec = open_upto(cs, allowed, 9);
    let mut slots: Vec<usize> = Vec::new();
    let mut masks: Vec<u16> = Vec::new();
    k = 0;
    while k < 9
        invariant
            k <= 9,
            sudoku@ == g,
            g.len() == 81,
            indices_ok(ps@),
            cs == cells_at(g, ps@),
            slots.len() == masks.len(),
            slots@.len() == open_upto(cs, allowed, k as nat).len(),
            forall|c: int|
                0 <= c < slots.len() ==> slots@[c] == #[trigger] open_upto(cs, allowed, k as nat)[c].0
                    && masks@[c] == open_upto(cs, allowed, k as nat)[c].1,
        decreases 9 - k,
    {
        let ghost prev = open_upto(cs, allowed, k as nat);
        let ghost s0 = slots@;
        let ghost m0 = masks@;
        let ghost next = open_upto(cs, allowed, (k + 1) as nat);
        assert(cs[k as int] == g[ps@[k as int] as int]);
        match sudoku.at(ps[k]) {
            Cell::Digit(_) => {
                assert(next == prev);
            },
            Cell::Empty => {
                slots.push(k);
                masks.push(allowed);
                assert(next == prev.push((k, allowed)));
            },
            Cell::Pencil(m) => {
                slots.push(k);
                masks.push(m.0 & allowed);
                assert(next == prev.push((k, m.0 & allowed)));
            },
        }
        assert forall|c: int|
            0 <= c < slots.len() implies slots@[c] == #[trigger] next[c].0 && masks@[c] == next[c].1 by {
            if c < prev.len() {
                assert(next[c] == prev[c]);
                assert(slots@[c] == s0[c] && masks@[c] == m0[c]);
                assert(s0[c] == prev[c].0 && m0[c] == prev[c].1);
            }
        }
        k = k + 1;
    }
    let n = masks.len();
    proof {
        lemma_open_upto(cs, allowed, 9);
        assert(open_masks(open_spec) =~= masks@);
        assert(group_open(g, ps@) == open_spec);
    }
    let ghost ms = masks@;
    let mut removed: Vec<u16> = Vec::new();
    while removed.len() < n
        invariant
            removed.len() <= n,
            forall|c: int| 0 <= c < removed.len() ==> removed@[c] == removed_upto(ms, c as nat, 0),
        decreases n - removed.len(),
    {
        removed.push(0);
    }
    let mut sub: u16 = 0;
    while sub < 512
        invariant
            sub <= 512,
            n == masks.len() == removed.len(),
            n <= 9,
            ms == masks@,
            forall|c: int| 0 <= c < n ==> removed@[c] == removed_upto(ms, c as nat, sub as nat),
        decreases 512 - sub,
    {
        if naked_check(&masks, sub) {
            let u = union_mask(&masks, sub);
            let mut c: usize = 0;
            while c < n
                invariant
                    c <= n,
                    n == masks.len() == removed.len(),
                    n <= 9,
                    sub < 512,
                    ms == masks@,
                    is_naked(ms, sub),
                    u == union_of(ms, sub),
                    forall|j: int|
                        0 <= j < c ==> removed@[j] == removed_upto(ms, j as nat, (sub + 1) as nat),
                    forall|j: int|
                        c <= j < n ==> removed@[j] == removed_upto(ms, j as nat, sub as nat),
                decreases n - c,
            {
                if (sub >> (c as u16)) & 1 != 1 {
                    let v = removed[c] | u;
                    removed.set(c, v);
                }
                c = c + 1;
            }
        }
        sub = sub + 1;
    }
    let mut idxs: Vec<usize> = Vec::new();
    let mut vals: Vec<Cell> = Vec::new();
    let mut c: usize = 0;
    while c < n
        invariant
            c <= n,
            n == masks.len() == removed.len() == slots.len(),
            n <= 9,
            ms == masks@,
            sudoku@ == g,
            group_open(g, ps@) == open_spec,
            open_masks(open_spec) == ms,
            open_spec.len() == n,
            forall|j: int|
                0 <= j < n ==> slots@[j] == #[trigger] open_spec[j].0 && masks@[j] == open_spec[j].1,
            forall|j: int| 0 <= j < n ==> removed@[j] == removed_upto(ms, j as nat, 512),
            forall|j: int| 0 <= j < open_spec.len() ==> (#[trigger] open_spec[j]).0 < 9,
            idxs.len() == c,
            vals.len() == c,
            forall|j: int| 0 <= j < c ==> pop9(#[trigger] narrowed(ms, j as nat)) != 0,
            forall|j: int| 0 <= j < c ==> idxs@[j] == ps@[(#[trigger] open_spec[j]).0 as int],
            forall|j: int| 0 <= j < c ==> vals@[j] == collapse(Mask(#[trigger] narrowed(ms, j as nat))),
        decreases n - c,
    {
        let m = masks[c] & !removed[c];
        if count_digits(m) == 0 {
            assert(pop9(narrowed(ms, c as nat)) == 0);
            return Err(());
        }
        vals.push(collapse_mask(Mask(m)));
        assert(slots@[c as int] == open_spec[c as int].0);
        idxs.push(ps[slots[c]]);
        c = c + 1;
    }
    proof {
        let open = group_open(g, ps@);
        assert(open == open_spec);
        assert(idxs@ =~= open.map_values(|e: (usize, u16)| ps@[e.0 as int]));
        assert(vals@ =~= Seq::new(open.len(), |j: int| collapse(Mask(narrowed(ms, j as nat)))));
        assert forall|a: int, b: int| 0 <= a < idxs.len() && 0 <= b < idxs.len() && a != b implies idxs@[a] != idxs@[b] by {
            if a < b {
                assert(open_spec[a].0 < open_spec[b].0);
            } else {
                assert(open_spec[b].0 < open_spec[a].0);
            }
        }
    }
    sudoku.write_cells(&idxs, &vals);
    Ok(())
}

/// A group application only narrows: every cell of the result refines the same
/// cell before, and on a grid of digits only it succeeds and changes nothing.
pub proof fn lemma_group_outcome(g: Seq<Cell>, ps: Seq<usize>)
    requires
        grid_wf(g),
        indices_ok(ps),
        ps.len() == 9,
    ensures
        group_outcome(g, ps) is Some ==> refines_grid(g, group_outcome(g, ps)->Some_0) && grid_wf(
            group_outcome(g, ps)->Some_0,
        ),
        complete(g) ==> group_outcome(g, ps) == Some(g),
{
    let cs = cells_at(g, ps);
    let allowed = allowed_upto(cs, 9);
    let open = group_open(g, ps);
    let masks = open_masks(open);
    lemma_allowed_low(cs, 9);
    lemma_open_upto(cs, allowed, 9);
    let idxs = open.map_values(|e: (usize, u16)| ps[e.0 as int]);
    let vals = Seq::new(open.len(), |c: int| collapse(Mask(narrowed(masks, c as nat))));
    if group_outcome(g, ps) is Some {
        assert forall|c: int| 0 <= c < idxs.len() implies refines(
            g[idxs[c] as int],
            #[trigger] vals[c],
        ) by {
            let k = open[c].0 as int;
            let cell = cs[k];
            assert(cell == g[idxs[c] as int]);
            let base = masks[c];
            let nm = narrowed(masks, c as nat);
            assert(base == base_mask(cell, allowed));
            assert(pop9(nm) != 0);
            let rem = removed_upto(masks, c as nat, 512);
            match cell {
                Cell::Pencil(m) => {
                    lemma_and_low(m.0, allowed);
                },
                _ => {},
            }
            lemma_bits_and(base, !rem);
            lemma_and_low(base, !rem);
            match cell {
                Cell::Pencil(m) => {
                    lemma_bits_and(m.0, allowed);
                    lemma_and_low(m.0, allowed);
                    assert forall|d: int| #[trigger] mask_has(Mask(nm), d) implies mask_has(m, d) by {
                        assert(bit(nm, (d - 1) as u16));
                        assert(bit(base, (d - 1) as u16));
                    }
                },
                _ => {},
            }
            lemma_collapse_refines(Mask(nm), cell);
        }
        assert forall|c: int| 0 <= c < idxs.len() implies #[trigger] idxs[c] < g.len() by {
            assert(open[c].0 < 9);
        }
        lemma_overwrite_refines(g, idxs, vals);
        assert(refines_grid(g, group_outcome(g, ps)->Some_0));
        assert forall|i: int| 0 <= i < 81 implies cell_wf(
            #[trigger] group_outcome(g, ps)->Some_0[i],
        ) by {
            crate::cell::lemma_refines_narrows(g[i], group_outcome(g, ps)->Some_0[i]);
        }
    }
    if complete(g) {
        assert forall|k: int| 0 <= k < cs.len() implies (#[trigger] cs[k]) is Digit by {
            assert(cs[k] == g[ps[k] as int]);
        }
        lemma_open_complete(cs, allowed, 9);
        lemma_overwrite_same(g, idxs, vals);
    }
}

/// The digit bits of each mark.
pub open spec fn mark_masks(marks: Seq<(Pos, Mask)>) -> Seq<u16> {
    marks.map_values(|e: (Pos, Mask)| e.1.0)
}

/// The subset tried at step `t`: all naked quads first, then triples, then
/// pairs, each size over its index sets in increasing order; the last one
/// tried whose digits hold bit `d` among the first `t` steps.
pub open spec fn last_naked(masks: Seq<u16>, d: u16, t: nat) -> Option<u16>
    decreases t,
{
    if t == 0 {
        None
    } else {
        let sub = ((t - 1) % 512) as u16;
        if is_naked(masks, sub) && pop9(sub) == 4 - (t - 1) / 512 && bit(union_of(masks, sub), d) {
            Some(sub)
        } else {
            last_naked(masks, d, (t - 1) as nat)
        }
    }
}

/// The positions of the marks that `sub` picks among the first `n`, in order.
pub open spec fn picked_upto(marks: Seq<(Pos, Mask)>, sub: u16, n: nat) -> Seq<Pos>
    decreases n,
{
    if n == 0 {
        seq![]
    } else if bit(sub, (n - 1) as u16) {
        picked_upto(marks, sub, (n - 1) as nat).push(marks[n - 1].0)
    } else {
        picked_upto(marks, sub, (n - 1) as nat)
    }
}

/// The positions of the marks that `sub` picks.
pub fn picked(marks: &Vec<(Pos, Mask)>, sub: u16) -> (r: Vec<Pos>)
    requires
        marks.len() <= 9,
    ensures
        r@ == picked_upto(marks@, sub, marks.len() as nat),
{
    let mut r: Vec<Pos> = Vec::new();
    let mut i: usize = 0;
    while i < marks.len()
        invariant
            i <= marks.len() <= 9,
            r@ == picked_upto(marks@, sub, i as nat),
        decreases marks.len() - i,
    {
        if (sub >> (i as u16)) & 1 == 1 {
            r.push(marks[i].0);
        }
        i = i + 1;
    }
    r
}

/// For each digit (index 0 for digit 1), the positions of a naked pair, triple
/// or quad among the marks whose candidates include it: of the smallest such
/// size, the last in increasing order of index sets; `None` when there is none.
pub fn find_naked_sets(marks: &Vec<(Pos, Mask)>) -> (r: Vec<Option<Vec<Pos>>>)
    requires
        marks.len() <= 9,
    ensures
        r.len() == 9,
        forall|d: int|
            0 <= d < 9 ==> match last_naked(mark_masks(marks@), d as u16, 1536) {
                None => (#[trigger] r@[d]) is None,
                Some(sub) => r@[d] is Some && r@[d]->Some_0@ == picked_upto(
                    marks@,
                    sub,
                    marks.len() as nat,
                ),
            },
{
    let mut masks: Vec<u16> = Vec::new();
    let mut i: usize = 0;
    while i < marks.len()
        invariant
            i <= marks.len(),
            masks@ == mark_masks(marks@).take(i as int),
        decreases marks.len() - i,
    {
        masks.push(marks[i].1.0);
        proof {
            assert(mark_masks(marks@).take(i + 1) =~= mark_masks(marks@).take(i as int).push(
                marks@[i as int].1.0,
            ));
        }
        i = i + 1;
    }
    assert(masks@ =~= mark_masks(marks@));
    let ghost ms = masks@;
    let mut r: Vec<Option<Vec<Pos>>> = Vec::new();
    while r.len() < 9
        invariant
            r.len() <= 9,
            forall|d: int| 0 <= d < r.len() ==> (#[trigger] r@[d]) is None,
        decreases 9 - r.len(),
    {
        r.push(None);
    }
    let mut t: usize = 0;
    while t < 1536
        invariant
            t <= 1536,
            r.len() == 9,
            masks@ == ms,
            ms == mark_masks(marks@),
            marks.len() <= 9,
            forall|d: int|
                0 <= d < 9 ==> match last_naked(ms, d as u16, t as nat) {
                    None => (#[trigger] r@[d]) is None,
                    Some(sub) => r@[d] is Some && r@[d]->Some_0@ == picked_upto(
                        marks@,
                        sub,
                        marks.len() as nat,
                    ),
                },
        decreases 1536 - t,
    {
        let size = (4 - t / 512) as u32;
        let sub = (t % 512) as u16;
        if naked_check(&masks, sub) && count_digits(sub) == size {
            let u = union_mask(&masks, sub);
            let mut d: u16 = 0;
            while d < 9
                invariant
                    d <= 9,
                    t < 1536,
                    r.len() == 9,
                    masks@ == ms,
                    marks.len() <= 9,
                    sub == (t % 512) as u16,
                    is_naked(ms, sub),
                    pop9(sub) == 4 - t / 512,
                    u == union_of(ms, sub),
                    forall|e: int|
                        0 <= e < d ==> match last_naked(ms, e as u16, (t + 1) as nat) {
                            None => (#[trigger] r@[e]) is None,
                            Some(s) => r@[e] is Some && r@[e]->Some_0@ == picked_upto(
                                marks@,
                                s,
                                marks.len() as nat,
                            ),
                        },
                    forall|e: int|
                        d <= e < 9 ==> match last_naked(ms, e as u16, t as nat) {
                            None => (#[trigger] r@[e]) is None,
                            Some(s) => r@[e] is Some && r@[e]->Some_0@ == picked_upto(
                                marks@,
                                s,
                                marks.len() as nat,
                            ),
                        },
                decreases 9 - d,
            {
                if (u >> d) & 1 == 1 {
                    let p = picked(marks, sub);
                    r.set(d as usize, Some(p));
                }
                d = d + 1;
            }
        }
        t = t + 1;
    }
    r
}

/// What the elimination removes from cell `c`, said directly: a digit bit is
/// removed exactly when some naked pair, triple or quad (among the first `t`
/// subsets) leaves `c` out and holds that digit.
pub proof fn lemma_removed_bits(masks: Seq<u16>, c: nat, t: nat)
    requires
        t <= 512,
    ensures
        forall|e: u16|
            e < 16 ==> (#[trigger] bit(removed_upto(masks, c, t), e) <==> exists|s: u16|
                s < t && is_naked(masks, s) && !bit(s, c as u16) && bit(union_of(masks, s), e)),
    decreases t,
{
    lemma_zero_bits();
    if t > 0 {
        lemma_removed_bits(masks, c, (t - 1) as nat);
        let s0 = (t - 1) as u16;
        let prev = removed_upto(masks, c, (t - 1) as nat);
        if is_naked(masks, s0) && !bit(s0, c as u16) {
            lemma_bits_or(prev, union_of(masks, s0));
        }
        assert forall|e: u16| e < 16 implies (#[trigger] bit(removed_upto(masks, c, t), e) <==> exists|s: u16|
            s < t && is_naked(masks, s) && !bit(s, c as u16) && bit(union_of(masks, s), e)) by {
            if bit(removed_upto(masks, c, t), e) {
                if bit(prev, e) {
                    let s = choose|s: u16|
                        s < (t - 1) as nat && is_naked(masks, s) && !bit(s, c as u16) && bit(union_of(masks, s), e);
                    assert(s < t);
                } else {
                    assert(s0 < t && is_naked(masks, s0) && !bit(s0, c as u16) && bit(union_of(masks, s0), e));
                }
            }
            if exists|s: u16| s < t && is_naked(masks, s) && !bit(s, c as u16) && bit(union_of(masks, s), e) {
                let s = choose|s: u16| s < t && is_naked(masks, s) && !bit(s, c as u16) && bit(union_of(masks, s), e);
                if s < t - 1 {
                    assert(exists|s: u16|
                        s < (t - 1) as nat && is_naked(masks, s) && !bit(s, c as u16) && bit(union_of(masks, s), e));
                } else {
                    assert(s == s0);
                }
            }
        }
    }
}

/// The digit of a resolved cell (0 for an open one).
pub open spec fn digit_of(c: Cell) -> int {
    match c {
        Cell::Digit(d) => d as int,
        _ => 0,
    }
}

/// `sol` is complete, and each of its digits is allowed by the same cell of `g`.
pub open spec fn agrees(g: Seq<Cell>, sol: Seq<Cell>) -> bool {
    &&& g.len() == sol.len()
    &&& forall|i: int| 0 <= i < g.len() ==> (#[trigger] sol[i]) is Digit && allows(g[i], digit_of(sol[i]))
}

/// The cells `ps` of `sol` are pairwise different.
pub open spec fn distinct_at(sol: Seq<Cell>, ps: Seq<usize>) -> bool {
    forall|k: int, l: int|
        0 <= k < ps.len() && 0 <= l < ps.len() && k != l ==> sol[ps[k] as int] != sol[ps[l] as int]
}

proof fn lemma_allowed_keeps(cs: Seq<Cell>, n: nat, e: u16)
    requires
        n <= cs.len(),
        e < 9,
        forall|k: int| 0 <= k < n ==> cell_wf(#[trigger] cs[k]),
        forall|k: int| 0 <= k < n ==> #[trigger] cs[k] != Cell::Digit((e + 1) as u8),
    ensures
        bit(allowed_upto(cs, n), e),
    decreases n,
{
    if n == 0 {
        lemma_low_bits_set();
    } else {
        lemma_allowed_keeps(cs, (n - 1) as nat, e);
        match cs[n - 1] {
            Cell::Digit(d) => {
                let a = allowed_upto(cs, (n - 1) as nat);
                lemma_bits_and(a, !(1u16 << ((d - 1) as u16)));
                lemma_bits_not(1u16 << ((d - 1) as u16));
                lemma_bits_single((d - 1) as u16);
                assert(cs[n - 1] != Cell::Digit((e + 1) as u8));
                assert(d as int != e + 1);
            },
            _ => {},
        }
    }
}

proof fn lemma_union_has(masks: Seq<u16>, sub: u16, n: nat, i: int, e: u16)
    requires
        n <= masks.len(),
        0 <= i < n,
        e < 16,
        bit(sub, i as u16),
        bit(masks[i], e),
    ensures
        bit(union_upto(masks, sub, n), e),
    decreases n,
{
    let prev = union_upto(masks, sub, (n - 1) as nat);
    if bit(sub, (n - 1) as u16) {
        lemma_bits_or(prev, masks[n - 1]);
    }
    if i < n - 1 {
        lemma_union_has(masks, sub, (n - 1) as nat, i, e);
    }
}

/// The bits `vals[i]` for the indices `i` below `n` that `sub` picks.
pub open spec fn picked_digits(vals: Seq<u16>, sub: u16, n: nat) -> u16
    decreases n,
{
    if n == 0 {
        0u16
    } else if bit(sub, (n - 1) as u16) {
        picked_digits(vals, sub, (n - 1) as nat) | (1u16 << vals[n - 1])
    } else {
        picked_digits(vals, sub, (n - 1) as nat)
    }
}

/// Values of distinct cells, each a candidate of its own mask.
pub open spec fn candidates_of(masks: Seq<u16>, vals: Seq<u16>) -> bool {
    &&& masks.len() == vals.len()
    &&& masks.len() <= 9
    &&& forall|i: int| 0 <= i < vals.len() ==> #[trigger] vals[i] < 9 && bit(masks[i], vals[i])
    &&& forall|i: int, j: int| 0 <= i < vals.len() && 0 <= j < vals.len() && i != j ==> vals[i] != vals[j]
}

proof fn lemma_zero_bits()
    ensures
        forall|i: u16| !#[trigger] bit(0u16, i),
{
    assert(forall|i: u16| !#[trigger] bit(0u16, i)) by (bit_vector);
}

proof fn lemma_picked_digits(masks: Seq<u16>, vals: Seq<u16>, sub: u16, n: nat)
    requires
        candidates_of(masks, vals),
        n <= masks.len(),
    ensures
        forall|e: u16|
            e < 16 && #[trigger] bit(picked_digits(vals, sub, n), e) ==> exists|i: int|
                0 <= i < n && bit(sub, i as u16) && vals[i] == e,
        forall|e: u16|
            e < 16 && #[trigger] bit(picked_digits(vals, sub, n), e) ==> bit(union_upto(masks, sub, n), e),
        pop9(picked_digits(vals, sub, n)) == pop_upto(sub, n),
    decreases n,
{
    lemma_zero_bits();
    if n == 0 {
        lemma_pop_positive(0u16, 9);
    } else {
        lemma_picked_digits(masks, vals, sub, (n - 1) as nat);
        let prev = picked_digits(vals, sub, (n - 1) as nat);
        let uprev = union_upto(masks, sub, (n - 1) as nat);
        if bit(sub, (n - 1) as u16) {
            let v = vals[n - 1];
            assert(v < 9 && bit(masks[n - 1], v));
            lemma_bits_or(prev, 1u16 << v);
            lemma_bits_single(v);
            lemma_bits_or(uprev, masks[n - 1]);
            assert(!bit(prev, v)) by {
                if bit(prev, v) {
                    let i = choose|i: int| 0 <= i < n - 1 && bit(sub, i as u16) && vals[i] == v;
                    assert(vals[i] == vals[n - 1]);
                }
            }
            lemma_pop_add_bit(prev, v, 9);
            assert forall|e: u16|
                e < 16 && #[trigger] bit(picked_digits(vals, sub, n), e) implies exists|i: int|
                0 <= i < n && bit(sub, i as u16) && vals[i] == e by {
                if e != v {
                    assert(bit(prev, e));
                    let i = choose|i: int| 0 <= i < n - 1 && bit(sub, i as u16) && vals[i] == e;
                    assert(0 <= i < n && bit(sub, i as u16) && vals[i] == e);
                } else {
                    assert(bit(sub, (n - 1) as u16) && vals[n - 1] == e);
                }
            }
        } else {
            assert forall|e: u16|
                e < 16 && #[trigger] bit(picked_digits(vals, sub, n), e) implies exists|i: int|
                0 <= i < n && bit(sub, i as u16) && vals[i] == e by {
                assert(bit(prev, e));
                let i = choose|i: int| 0 <= i < n - 1 && bit(sub, i as u16) && vals[i] == e;
                assert(0 <= i < n && bit(sub, i as u16) && vals[i] == e);
            }
        }
    }
}

/// A naked subset holds the values of its own cells on all its digits, so the
/// value of a cell outside it is none of them.
proof fn lemma_naked_confines(masks: Seq<u16>, vals: Seq<u16>, sub: u16, c: int)
    requires
        candidates_of(masks, vals),
        is_naked(masks, sub),
        0 <= c < masks.len(),
        !bit(sub, c as u16),
    ensures
        !bit(union_of(masks, sub), vals[c]),
{
    let m = masks.len();
    lemma_picked_digits(masks, vals, sub, m);
    let d = picked_digits(vals, sub, m);
    let u = union_of(masks, sub);
    lemma_pop_clear_above(sub, m, 9);
    let v = vals[c];
    assert(v < 9);
    if bit(u, v) {
        assert(!bit(d, v)) by {
            if bit(d, v) {
                let i = choose|i: int| 0 <= i < m && bit(sub, i as u16) && vals[i] == v;
                assert(i != c);
            }
        }
        assert forall|i: u16| i < 9 && #[trigger] bit(d, i) implies bit(u, i) by {}
        assert(exists|i: u16| i < 9 && #[trigger] bit(u, i) && !bit(d, i));
        lemma_pop_upto_subset(d, u, 9);
    }
}

proof fn lemma_removed_misses(masks: Seq<u16>, vals: Seq<u16>, c: nat, t: nat)
    requires
        candidates_of(masks, vals),
        c < masks.len(),
    ensures
        !bit(removed_upto(masks, c, t), vals[c as int]),
    decreases t,
{
    lemma_zero_bits();
    if t > 0 {
        lemma_removed_misses(masks, vals, c, (t - 1) as nat);
        let s = (t - 1) as u16;
        if is_naked(masks, s) && !bit(s, c as u16) {
            lemma_naked_confines(masks, vals, s, c as int);
            lemma_bits_or(removed_upto(masks, c, (t - 1) as nat), union_of(masks, s));
        }
    }
}

/// Propagation is safe: a completion that agrees with the grid and has
/// different digits in the group's cells still agrees with the grid after the
/// group rule, which then reports no contradiction.
pub proof fn lemma_group_keeps_solutions(g: Seq<Cell>, ps: Seq<usize>, sol: Seq<Cell>)
    requires
        grid_wf(g),
        indices_ok(ps),
        ps.len() == 9,
        agrees(g, sol),
        distinct_at(sol, ps),
    ensures
        group_outcome(g, ps) is Some,
        agrees(group_outcome(g, ps)->Some_0, sol),
{
    let cs = cells_at(g, ps);
    let allowed = allowed_upto(cs, 9);
    let open = group_open(g, ps);
    let masks = open_masks(open);
    lemma_open_upto(cs, allowed, 9);
    lemma_allowed_low(cs, 9);
    let vals = Seq::new(open.len(), |c: int| (digit_of(sol[ps[open[c].0 as int] as int]) - 1) as u16);
    assert forall|k: int| 0 <= k < 9 implies cell_wf(#[trigger] cs[k]) by {
        assert(cs[k] == g[ps[k] as int]);
    }
    assert forall|c: int| 0 <= c < vals.len() implies #[trigger] vals[c] < 9 && bit(masks[c], vals[c]) by {
        let k = open[c].0 as int;
        let i = ps[k] as int;
        assert(cs[k] == g[i]);
        let v = digit_of(sol[i]);
        assert(sol[i] is Digit && allows(g[i], v));
        assert(1 <= v <= 9);
        assert forall|j: int| 0 <= j < 9 implies #[trigger] cs[j] != Cell::Digit(((v - 1) as u16 + 1) as u8) by {
            if cs[j] == Cell::Digit(v as u8) {
                assert(j != k);
                assert(cs[j] == g[ps[j] as int]);
                assert(allows(g[ps[j] as int], digit_of(sol[ps[j] as int])));
                assert(sol[ps[j] as int] == sol[i]);
            }
        }
        lemma_allowed_keeps(cs, 9, (v - 1) as u16);
        match cs[k] {
            Cell::Pencil(m) => {
                lemma_bits_and(m.0, allowed);
            },
            _ => {},
        }
    }
    assert forall|a: int, b: int| 0 <= a < vals.len() && 0 <= b < vals.len() && a != b implies vals[a]
        != vals[b] by {
        let ka = open[a].0 as int;
        let kb = open[b].0 as int;
        assert(ka != kb) by {
            if a < b {
                assert(open[a].0 < open[b].0);
            } else {
                assert(open[b].0 < open[a].0);
            }
        }
        assert(sol[ps[ka] as int] != sol[ps[kb] as int]);
        assert(sol[ps[ka] as int] is Digit && sol[ps[kb] as int] is Digit);
    }
    assert(candidates_of(masks, vals));
    assert forall|c: int| 0 <= c < open.len() implies #[trigger] bit(narrowed(masks, c as nat), vals[c]) by {
        lemma_removed_misses(masks, vals, c as nat, 512);
        let rem = removed_upto(masks, c as nat, 512);
        lemma_bits_and(masks[c], !rem);
        lemma_bits_not(rem);
    }
    assert forall|c: int| 0 <= c < open.len() implies pop9(#[trigger] narrowed(masks, c as nat)) != 0 by {
        assert(bit(narrowed(masks, c as nat), vals[c]) && vals[c] < 9);
        lemma_pop_positive(narrowed(masks, c as nat), 9);
    }
    let idxs = open.map_values(|e: (usize, u16)| ps[e.0 as int]);
    let cells = Seq::new(open.len(), |c: int| collapse(Mask(narrowed(masks, c as nat))));
    let h = overwrite(g, idxs, cells);
    assert(group_outcome(g, ps) == Some(h));
    assert forall|i: int| 0 <= i < h.len() implies (#[trigger] sol[i]) is Digit && allows(h[i], digit_of(sol[i])) by {
        if exists|k: int| 0 <= k < idxs.len() && idxs[k] == i {
            let c = choose|k: int| 0 <= k < idxs.len() && idxs[k] == i;
            let nm = narrowed(masks, c as nat);
            let v = vals[c];
            assert(v as int == digit_of(sol[i]) - 1);
            assert(bit(nm, v));
            if mask_len(Mask(nm)) == 1 {
                lemma_pop_one(nm, 9);
                assert(v as int == first_bit_from(nm, 0));
            }
        }
    }
}

} // verus!
