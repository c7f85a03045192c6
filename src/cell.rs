use vstd::prelude::*;

use crate::mask::{
    bit, first_bit_from, first_digit_bit, lemma_bits_ext, lemma_bits_low, lemma_first_bit,
    lemma_pop_positive, lemma_pop_upto_bound, lemma_pop_upto_subset, mask_has, mask_len,
    mask_subset, mask_wf, Mask,
};

verus! {

/// What is known of one cell.
#[derive(Clone, Copy, PartialEq, Eq, Structural, Debug)]
pub enum Cell {
    /// Nothing computed yet: every digit is still possible.
    Empty,
    /// Resolved to a digit 1..=9.
    Digit(u8),
    /// The digits still possible.
    Pencil(Mask),
}

pub open spec fn cell_wf(c: Cell) -> bool {
    match c {
        Cell::Empty => true,
        Cell::Digit(d) => 1 <= d <= 9,
        Cell::Pencil(m) => mask_wf(m),
    }
}

/// Digit `d` is still possible in `c`.
pub open spec fn allows(c: Cell, d: int) -> bool {
    match c {
        Cell::Empty => 1 <= d <= 9,
        Cell::Digit(x) => d == x,
        Cell::Pencil(m) => mask_has(m, d),
    }
}

/// Number of digits still possible in `c`.
pub open spec fn option_count(c: Cell) -> nat {
    match c {
        Cell::Empty => 9,
        Cell::Digit(_) => 1,
        Cell::Pencil(m) => mask_len(m),
    }
}

/// `b` knows at least what `a` knows: a digit stays, an empty cell may take any
/// well-formed state, a candidate set may only shrink or resolve to one of its digits.
pub open spec fn refines(a: Cell, b: Cell) -> bool {
    a == b || match a {
        Cell::Empty => cell_wf(b),
        Cell::Digit(_) => false,
        Cell::Pencil(m) => match b {
            Cell::Empty => false,
            Cell::Digit(d) => mask_has(m, d as int),
            Cell::Pencil(m2) => mask_wf(m2) && mask_subset(m2, m),
        },
    }
}

/// A measure that every strict refinement lowers.
pub open spec fn weight(c: Cell) -> nat {
    match c {
        Cell::Empty => 11,
        Cell::Digit(_) => 0,
        Cell::Pencil(m) => mask_len(m) + 1,
    }
}

/// The cell a candidate set stands for: its digit when it holds exactly one.
pub open spec fn collapse(m: Mask) -> Cell {
    if mask_len(m) == 1 {
        Cell::Digit((first_bit_from(m.0, 0) + 1) as u8)
    } else {
        Cell::Pencil(m)
    }
}

/// The cell that a 16-bit code stands for: 0 is empty, 1..=9 a digit, anything
/// else a candidate set made of its nine low bits.
pub open spec fn decode(v: u16) -> Cell {
    if v == 0 {
        Cell::Empty
    } else if v <= 9 {
        Cell::Digit(v as u8)
    } else {
        Cell::Pencil(Mask(v & 0x1ffu16))
    }
}

/// The 16-bit code of a cell: candidate sets carry the top bit as a flag.
pub open spec fn encode(c: Cell) -> u16 {
    match c {
        Cell::Empty => 0,
        Cell::Digit(d) => d as u16,
        Cell::Pencil(m) => 0x8000u16 | (m.0 & 0x1ffu16),
    }
}

/// Converts a 16-bit code into a cell.
pub fn extract_cell(value: u16) -> (c: Cell)
    ensures
        c == decode(value),
        cell_wf(c),
{
    proof {
        lemma_bits_low(value);
    }
    if value == 0 {
        Cell::Empty
    } else if value <= 9 {
        Cell::Digit(value as u8)
    } else {
        Cell::Pencil(Mask(value & 0x1ff))
    }
}

impl Cell {
    /// The 16-bit code of the cell.
    pub fn code(&self) -> (r: u16)
        ensures
            r == encode(*self),
    {
        match self {
            Cell::Empty => 0,
            Cell::Digit(d) => *d as u16,
            Cell::Pencil(m) => m.code(),
        }
    }
}

/// The cell for a candidate set: a digit when one is left.
pub fn collapse_mask(m: Mask) -> (c: Cell)
    ensures
        c == collapse(m),
{
    if m.len() == 1 {
        let i = first_digit_bit(m.0);
        proof {
            lemma_pop_positive(m.0, 9);
            lemma_first_bit(m.0, 0);
        }
        Cell::Digit((i + 1) as u8)
    } else {
        Cell::Pencil(m)
    }
}

/// A non-empty, well-formed candidate set collapses to a well-formed cell that
/// allows only digits of the set.
pub proof fn lemma_collapse(m: Mask)
    requires
        mask_wf(m),
        mask_len(m) > 0,
    ensures
        cell_wf(collapse(m)),
        !(collapse(m) is Empty),
        forall|d: int| #[trigger] allows(collapse(m), d) ==> mask_has(m, d),
        mask_len(m) == 1 ==> mask_has(m, collapse(m)->Digit_0 as int),
{
    lemma_pop_positive(m.0, 9);
    lemma_first_bit(m.0, 0);
}

/// Collapsing a subset of a candidate set refines it, and refines an empty cell.
pub proof fn lemma_collapse_refines(m: Mask, from: Cell)
    requires
        mask_wf(m),
        mask_len(m) > 0,
        from is Empty || (from is Pencil && mask_subset(m, from->Pencil_0)),
    ensures
        refines(from, collapse(m)),
{
    lemma_collapse(m);
}

/// A well-formed candidate set holds at most nine digits.
pub proof fn lemma_mask_len_bound(m: Mask)
    ensures
        mask_len(m) <= 9,
{
    lemma_pop_upto_bound(m.0, 9);
}

pub proof fn lemma_refines_trans(a: Cell, b: Cell, c: Cell)
    requires
        cell_wf(a),
        refines(a, b),
        refines(b, c),
    ensures
        refines(a, c),
{
}

/// A refinement allows no digit that the cell before did not, counts no more
/// digits, and lowers the weight unless nothing changed.
pub proof fn lemma_refines_narrows(a: Cell, b: Cell)
    requires
        cell_wf(a),
        refines(a, b),
    ensures
        cell_wf(b),
        forall|d: int| #[trigger] allows(b, d) ==> allows(a, d),
        option_count(b) <= option_count(a),
        weight(b) <= weight(a),
        a != b ==> weight(b) < weight(a),
{
    if a != b {
        match a {
            Cell::Empty => {
                match b {
                    Cell::Pencil(m2) => {
                        lemma_mask_len_bound(m2);
                    },
                    _ => {},
                }
            },
            Cell::Pencil(m) => {
                match b {
                    Cell::Digit(d) => {
                        lemma_pop_positive(m.0, 9);
                        assert(bit(m.0, (d - 1) as u16));
                    },
                    Cell::Pencil(m2) => {
                        assert forall|i: u16| i < 9 && #[trigger] bit(m2.0, i) implies bit(
                            m.0,
                            i,
                        ) by {
                            assert(mask_has(m2, i + 1));
                        }
                        if !(exists|i: u16| i < 9 && #[trigger] bit(m.0, i) && !bit(m2.0, i)) {
                            assert forall|i: u16| i < 9 implies #[trigger] bit(m.0, i) == bit(
                                m2.0,
                                i,
                            ) by {
                                if bit(m.0, i) {
                                    assert(!(i < 9 && bit(m.0, i) && !bit(m2.0, i)));
                                }
                            }
                            lemma_bits_ext(m.0, m2.0);
                        }
                        lemma_pop_upto_subset(m2.0, m.0, 9);
                    },
                    _ => {},
                }
            },
            _ => {},
        }
    } else {
        match a {
            Cell::Pencil(m) => {
                lemma_mask_len_bound(m);
            },
            _ => {},
        }
    }
}

/// A candidate set that holds digit `d` collapses to a cell that allows it.
pub proof fn lemma_collapse_allows(m: Mask, d: int)
    requires
        mask_has(m, d),
    ensures
        allows(collapse(m), d),
{
    if mask_len(m) == 1 {
        crate::mask::lemma_pop_one(m.0, 9);
    }
}

} // verus!
