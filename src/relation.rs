use vstd::prelude::*;

use crate::cell::{allows, cell_wf, collapse, collapse_mask, lemma_collapse_refines, refines, Cell};
use crate::mask::{mask_has, mask_len, mask_wf, Mask};

verus! {

/// Candidate set `m` without digit `x`: unchanged when `x` is not in it, `None`
/// when nothing would be left.
pub open spec fn strike(m: Mask, x: u8) -> Option<Cell> {
    if !mask_has(m, x as int) {
        Some(Cell::Pencil(m))
    } else {
        let r = Mask(m.0 & !(1u16 << ((x - 1) as u16)));
        if mask_len(r) == 0 {
            None
        } else {
            Some(collapse(r))
        }
    }
}

/// Two cells that must hold different digits: equal digits are a
/// contradiction, a digit leaves the other cell's candidates, open pairs stay.
pub open spec fn cage_pair(a: Cell, b: Cell) -> Option<(Cell, Cell)> {
    match (a, b) {
        (Cell::Digit(x), Cell::Digit(y)) => if x == y {
            None
        } else {
            Some((a, b))
        },
        (Cell::Digit(x), Cell::Pencil(m)) => match strike(m, x) {
            Some(c) => Some((a, c)),
            None => None,
        },
        (Cell::Pencil(m), Cell::Digit(x)) => match strike(m, x) {
            Some(c) => Some((c, b)),
            None => None,
        },
        _ => Some((a, b)),
    }
}

/// Both cells narrowed to the candidate set `m`; `None` when it is empty.
pub open spec fn meet(m: Mask) -> Option<(Cell, Cell)> {
    if mask_len(m) == 0 {
        None
    } else {
        Some((collapse(m), collapse(m)))
    }
}

/// Two cells that must hold the same digit: different digits, or a digit that
/// the other cell excludes, are a contradiction; a digit is copied onto the
/// other cell; two candidate sets both become their intersection.
pub open spec fn mirror_pair(a: Cell, b: Cell) -> Option<(Cell, Cell)> {
    match (a, b) {
        (Cell::Empty, Cell::Empty) => Some((a, b)),
        (Cell::Digit(x), Cell::Digit(y)) => if x == y {
            Some((a, b))
        } else {
            None
        },
        (Cell::Digit(x), Cell::Pencil(m)) => if mask_has(m, x as int) {
            Some((a, a))
        } else {
            None
        },
        (Cell::Pencil(m), Cell::Digit(x)) => if mask_has(m, x as int) {
            Some((b, b))
        } else {
            None
        },
        (Cell::Digit(_), Cell::Empty) => Some((a, a)),
        (Cell::Empty, Cell::Digit(_)) => Some((b, b)),
        (Cell::Empty, Cell::Pencil(m)) => meet(m),
        (Cell::Pencil(m), Cell::Empty) => meet(m),
        (Cell::Pencil(m1), Cell::Pencil(m2)) => meet(Mask(m1.0 & m2.0)),
    }
}

pub fn strike_digit(m: Mask, x: u8) -> (r: Option<Cell>)
    requires
        1 <= x <= 9,
    ensures
        r == strike(m, x),
{
    if !m.has_digit(x) {
        Some(Cell::Pencil(m))
    } else {
        let r = m.without(x);
        if r.len() == 0 {
            None
        } else {
            Some(collapse_mask(r))
        }
    }
}

pub fn apply_cage(a: Cell, b: Cell) -> (r: Option<(Cell, Cell)>)
    requires
        cell_wf(a),
        cell_wf(b),
    ensures
        r == cage_pair(a, b),
{
    match (a, b) {
        (Cell::Digit(x), Cell::Digit(y)) => if x == y {
            None
        } else {
            Some((a, b))
        },
        (Cell::Digit(x), Cell::Pencil(m)) => match strike_digit(m, x) {
            Some(c) => Some((a, c)),
            None => None,
        },
        (Cell::Pencil(m), Cell::Digit(x)) => match strike_digit(m, x) {
            Some(c) => Some((c, b)),
            None => None,
        },
        _ => Some((a, b)),
    }
}

pub fn meet_mask(m: Mask) -> (r: Option<(Cell, Cell)>)
    ensures
        r == meet(m),
{
    if m.len() == 0 {
        None
    } else {
        let c = collapse_mask(m);
        Some((c, c))
    }
}

pub fn apply_mirror(a: Cell, b: Cell) -> (r: Option<(Cell, Cell)>)
    requires
        cell_wf(a),
        cell_wf(b),
    ensures
        r == mirror_pair(a, b),
{
    match (a, b) {
        (Cell::Empty, Cell::Empty) => Some((a, b)),
        (Cell::Digit(x), Cell::Digit(y)) => if x == y {
            Some((a, b))
        } else {
            None
        },
        (Cell::Digit(x), Cell::Pencil(m)) => if m.has_digit(x) {
            Some((a, a))
        } else {
            None
        },
        (Cell::Pencil(m), Cell::Digit(x)) => if m.has_digit(x) {
            Some((b, b))
        } else {
            None
        },
        (Cell::Digit(_), Cell::Empty) => Some((a, a)),
        (Cell::Empty, Cell::Digit(_)) => Some((b, b)),
        (Cell::Empty, Cell::Pencil(m)) => meet_mask(m),
        (Cell::Pencil(m), Cell::Empty) => meet_mask(m),
        (Cell::Pencil(m1), Cell::Pencil(m2)) => meet_mask(m1.intersect(&m2)),
    }
}

/// A cage step only narrows, and leaves two different digits alone.
pub proof fn lemma_cage_pair(a: Cell, b: Cell)
    requires
        cell_wf(a),
        cell_wf(b),
    ensures
        cage_pair(a, b) is Some ==> refines(a, cage_pair(a, b)->Some_0.0) && refines(
            b,
            cage_pair(a, b)->Some_0.1,
        ),
        a is Digit && b is Digit && a != b ==> cage_pair(a, b) == Some((a, b)),
{
    match (a, b) {
        (Cell::Digit(x), Cell::Pencil(m)) => {
            lemma_strike(m, x);
        },
        (Cell::Pencil(m), Cell::Digit(x)) => {
            lemma_strike(m, x);
        },
        _ => {},
    }
}

pub proof fn lemma_strike(m: Mask, x: u8)
    requires
        mask_wf(m),
        1 <= x <= 9,
    ensures
        strike(m, x) is Some ==> refines(Cell::Pencil(m), strike(m, x)->Some_0),
{
    if mask_has(m, x as int) {
        let r = Mask(m.0 & !(1u16 << ((x - 1) as u16)));
        crate::mask::lemma_bits_and(m.0, !(1u16 << ((x - 1) as u16)));
        crate::mask::lemma_and_low(m.0, !(1u16 << ((x - 1) as u16)));
        if mask_len(r) != 0 {
            assert forall|d: int| #[trigger] mask_has(r, d) implies mask_has(m, d) by {
                assert(crate::mask::bit(r.0, (d - 1) as u16));
            }
            lemma_collapse_refines(r, Cell::Pencil(m));
        }
    }
}

/// A mirror step only narrows, and leaves two equal digits alone.
pub proof fn lemma_mirror_pair(a: Cell, b: Cell)
    requires
        cell_wf(a),
        cell_wf(b),
    ensures
        mirror_pair(a, b) is Some ==> refines(a, mirror_pair(a, b)->Some_0.0) && refines(
            b,
            mirror_pair(a, b)->Some_0.1,
        ),
        a is Digit && a == b ==> mirror_pair(a, b) == Some((a, b)),
{
    match (a, b) {
        (Cell::Empty, Cell::Pencil(m)) => {
            if mask_len(m) != 0 {
                lemma_collapse_refines(m, a);
                lemma_collapse_refines(m, b);
            }
        },
        (Cell::Pencil(m), Cell::Empty) => {
            if mask_len(m) != 0 {
                lemma_collapse_refines(m, a);
                lemma_collapse_refines(m, b);
            }
        },
        (Cell::Pencil(m1), Cell::Pencil(m2)) => {
            let m = Mask(m1.0 & m2.0);
            crate::mask::lemma_bits_and(m1.0, m2.0);
            crate::mask::lemma_and_low(m1.0, m2.0);
            if mask_len(m) != 0 {
                assert forall|d: int| #[trigger] mask_has(m, d) implies mask_has(m1, d) && mask_has(
                    m2,
                    d,
                ) by {
                    assert(crate::mask::bit(m.0, (d - 1) as u16));
                }
                lemma_collapse_refines(m, a);
                lemma_collapse_refines(m, b);
            }
        },
        _ => {},
    }
}

/// A cage step keeps any two different digits that the cells allow.
pub proof fn lemma_cage_pair_keeps(a: Cell, b: Cell, x: int, y: int)
    requires
        cell_wf(a),
        cell_wf(b),
        allows(a, x),
        allows(b, y),
        x != y,
    ensures
        cage_pair(a, b) is Some,
        allows(cage_pair(a, b)->Some_0.0, x),
        allows(cage_pair(a, b)->Some_0.1, y),
{
    match (a, b) {
        (Cell::Digit(p), Cell::Pencil(m)) => {
            lemma_strike_keeps(m, p, y);
        },
        (Cell::Pencil(m), Cell::Digit(p)) => {
            lemma_strike_keeps(m, p, x);
        },
        _ => {},
    }
}

/// Striking digit `p` from a set keeps any other digit `y` of the set.
pub proof fn lemma_strike_keeps(m: Mask, p: u8, y: int)
    requires
        1 <= p <= 9,
        mask_has(m, y),
        y != p,
    ensures
        strike(m, p) is Some,
        allows(strike(m, p)->Some_0, y),
{
    if mask_has(m, p as int) {
        let r = Mask(m.0 & !(1u16 << ((p - 1) as u16)));
        crate::mask::lemma_bits_and(m.0, !(1u16 << ((p - 1) as u16)));
        crate::mask::lemma_bits_not(1u16 << ((p - 1) as u16));
        crate::mask::lemma_bits_single((p - 1) as u16);
        assert(mask_has(r, y));
        crate::mask::lemma_pop_positive(r.0, 9);
        assert(crate::mask::bit(r.0, (y - 1) as u16) && ((y - 1) as u16) < 9);
        crate::cell::lemma_collapse_allows(r, y);
    }
}

/// A mirror step keeps a digit that both cells allow.
pub proof fn lemma_mirror_pair_keeps(a: Cell, b: Cell, x: int)
    requires
        cell_wf(a),
        cell_wf(b),
        allows(a, x),
        allows(b, x),
    ensures
        mirror_pair(a, b) is Some,
        allows(mirror_pair(a, b)->Some_0.0, x),
        allows(mirror_pair(a, b)->Some_0.1, x),
{
    let m = match (a, b) {
        (Cell::Empty, Cell::Pencil(m)) => m,
        (Cell::Pencil(m), Cell::Empty) => m,
        (Cell::Pencil(m1), Cell::Pencil(m2)) => Mask(m1.0 & m2.0),
        _ => Mask(0),
    };
    if (a is Pencil || b is Pencil) && !(a is Digit) && !(b is Digit) {
        if let (Cell::Pencil(m1), Cell::Pencil(m2)) = (a, b) {
            crate::mask::lemma_bits_and(m1.0, m2.0);
        }
        assert(mask_has(m, x));
        crate::mask::lemma_pop_positive(m.0, 9);
        assert(crate::mask::bit(m.0, (x - 1) as u16) && ((x - 1) as u16) < 9);
        crate::cell::lemma_collapse_allows(m, x);
    }
}

} // verus!
