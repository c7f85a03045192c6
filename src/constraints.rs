use vstd::prelude::*;

use crate::combinations::digits_ok;
use crate::mask::bit;
use crate::sums::Pair;

verus! {

/// Bits 1..=9 stand for the digits.
pub const DIGIT_MASK: u16 = 0x3fe;

/// Marks a position whose value is a set of forbidden digits.
pub const FORBIDDEN_FLAG: u16 = 0x8000;

/// Bit `i` of a 32-bit word.
pub open spec fn bit32(m: u32, i: u32) -> bool {
    (m >> i) & 1u32 == 1u32
}

/// The positions (0..24, two per pair) whose digit must differ from the digit at
/// position `p`, as a bit set.
pub open spec fn constraint_mask(p: int) -> u32 {
    if p == 0 {
        0x30d4
    } else if p == 1 {
        0x30e8
    } else if p == 2 {
        0x20331
    } else if p == 3 {
        0x322322
    } else if p == 4 {
        0xc0c05
    } else if p == 5 {
        0xdcbfce
    } else if p == 6 {
        0x30503
    } else if p == 7 {
        0x30a03
    } else if p == 8 {
        0x44c44c
    } else if p == 9 {
        0x88c
    } else if p == 10 {
        0xc00170
    } else if p == 11 {
        0xc002b0
    } else if p == 12 {
        0xd4003
    } else if p == 13 {
        0xe8003
    } else if p == 14 {
        0x311000
    } else if p == 15 {
        0x322322
    } else if p == 16 {
        0xc050c0
    } else if p == 17 {
        0xdcbfce
    } else if p == 18 {
        0x503030
    } else if p == 19 {
        0xa03030
    } else if p == 20 {
        0x44c44c
    } else if p == 21 {
        0x88c000
    } else if p == 22 {
        0x170c00
    } else {
        0x2b0c00
    }
}

/// The constraint mask of position `p`.
pub fn constraint_mask_of(p: usize) -> (r: u32)
    requires
        p < 24,
    ensures
        r == constraint_mask(p as int),
{
    let masks: [u32; 24] = [
        0x30d4,
        0x30e8,
        0x20331,
        0x322322,
        0xc0c05,
        0xdcbfce,
        0x30503,
        0x30a03,
        0x44c44c,
        0x88c,
        0xc00170,
        0xc002b0,
        0xd4003,
        0xe8003,
        0x311000,
        0x322322,
        0xc050c0,
        0xdcbfce,
        0x503030,
        0xa03030,
        0x44c44c,
        0x88c000,
        0x170c00,
        0x2b0c00,
    ];
    masks[p]
}

/// The digit at position `p` must differ from the digit at position `q`.
pub open spec fn related(p: int, q: int) -> bool {
    bit32(constraint_mask(p), q as u32)
}

/// The value at position `p` (pair `p / 2`, side `p % 2`).
pub open spec fn cell_at(sol: Seq<Pair>, p: int) -> u16 {
    sol[p / 2]@[p % 2]
}

/// One of the three repeated digits.
pub open spec fn in_dups(d: u16, dups: [u16; 3]) -> bool {
    d == dups@[0] || d == dups@[1] || d == dups@[2]
}

/// The three linked positions of the first half.
pub open spec fn linked(p: int) -> bool {
    p == 3 || p == 5 || p == 8
}

/// A complete assignment: every position holds a digit 1..=9.
pub open spec fn all_placed(sol: Seq<Pair>) -> bool {
    sol.len() == 12 && forall|p: int| 0 <= p < 24 ==> 1 <= #[trigger] cell_at(sol, p) <= 9
}

/// The linked positions 3, 5, 8 hold repeated digits, and 15, 17, 20 repeat them.
pub open spec fn linked_ok(sol: Seq<Pair>, dups: [u16; 3]) -> bool {
    forall|p: int| #[trigger] linked(p) ==> in_dups(cell_at(sol, p), dups) && cell_at(sol, p + 12) == cell_at(sol, p)
}

/// Related positions of different pairs hold different digits, the later one
/// checked against the earlier one.
pub open spec fn forward_ok(sol: Seq<Pair>) -> bool {
    forall|p: int, q: int|
        0 <= p < 24 && 0 <= q < 24 && p / 2 < q / 2 && #[trigger] related(p, q) ==> cell_at(sol, q)
            != cell_at(sol, p)
}

/// What every assignment reported by the search satisfies.
pub open spec fn assignment_ok(sol: Seq<Pair>, dups: [u16; 3]) -> bool {
    all_placed(sol) && linked_ok(sol, dups) && forward_ok(sol)
}

/// What `check_constraints` tests: the linked positions repeat three distinct
/// repeated digits, and every pair of related positions holds different digits.
pub open spec fn constraints_hold(sol: Seq<Pair>, dups: [u16; 3]) -> bool {
    &&& cell_at(sol, 3) == cell_at(sol, 15)
    &&& cell_at(sol, 5) == cell_at(sol, 17)
    &&& cell_at(sol, 8) == cell_at(sol, 20)
    &&& cell_at(sol, 3) != cell_at(sol, 5)
    &&& cell_at(sol, 5) != cell_at(sol, 8)
    &&& cell_at(sol, 8) != cell_at(sol, 3)
    &&& in_dups(cell_at(sol, 3), dups) && in_dups(cell_at(sol, 5), dups) && in_dups(cell_at(sol, 8), dups)
    &&& forall|p: int, q: int| 0 <= p < 24 && 0 <= q < 24 && #[trigger] related(p, q) ==> cell_at(sol, q) != cell_at(sol, p)
}

/// Pair `x` is one of the input pairs of the first half (`first`) or of the second.
pub open spec fn in_half(x: Pair, set: Seq<Pair>, first: bool) -> bool {
    exists|j: int| (if first { 0 <= j < 6 } else { 6 <= j < 12 }) && x == #[trigger] set[j]
}

/// Place `k` of `sol` holds, in one orientation or the other, an input pair of
/// its half (places 0..6 the first six pairs, places 6..12 the others).
pub open spec fn placed_from(sol: Seq<Pair>, set: Seq<Pair>, k: int) -> bool {
    exists|j: int|
        (if k < 6 { 0 <= j < 6 } else { 6 <= j < 12 }) && ((cell_at(sol, 2 * k) == (#[trigger] set[j])@[0]
            && cell_at(sol, 2 * k + 1) == set[j]@[1]) || (cell_at(sol, 2 * k) == set[j]@[1] && cell_at(
            sol,
            2 * k + 1,
        ) == set[j]@[0]))
}

/// The first `n` places each hold an input pair of their half.
pub open spec fn placed_upto(sol: Seq<Pair>, set: Seq<Pair>, n: int) -> bool {
    forall|k: int| 0 <= k < n ==> #[trigger] placed_from(sol, set, k)
}

/// The pairs not yet placed when `n` places are filled: before place 6, the
/// unused pairs of the first half followed by the whole second half; from
/// place 6 on, pairs of the second half.
pub open spec fn remaining_ok(rem: Seq<Pair>, set: Seq<Pair>, n: int) -> bool {
    &&& set.len() == 12
    &&& rem.len() == 12 - n
    &&& n < 6 ==> rem.subrange(rem.len() - 6, rem.len() as int) == set.subrange(6, 12)
        && forall|k: int| 0 <= k < rem.len() - 6 ==> in_half(#[trigger] rem[k], set, true)
    &&& n >= 6 ==> forall|k: int| 0 <= k < rem.len() ==> in_half(#[trigger] rem[k], set, false)
}

/// A position not yet given a digit: empty, or a set of forbidden digits.
pub open spec fn open_value(v: u16) -> bool {
    v == 0 || v & FORBIDDEN_FLAG != 0
}

/// The state of the search after `n` pairs have been placed.
pub open spec fn search_ok(cur: Seq<Pair>, n: int, dups: [u16; 3]) -> bool {
    &&& cur.len() == 12
    &&& 0 <= n <= 12
    &&& forall|p: int| 0 <= p < 2 * n ==> 1 <= #[trigger] cell_at(cur, p) <= 9
    &&& forall|p: int| 2 * n <= p < 24 ==> open_value(#[trigger] cell_at(cur, p))
    &&& forall|p: int| #[trigger] linked(p) && p < 2 * n ==> in_dups(cell_at(cur, p), dups)
    &&& forall|p: int| #[trigger] linked(p) && p + 12 < 2 * n ==> cell_at(cur, p + 12) == cell_at(cur, p)
    &&& forall|p: int, q: int|
        0 <= p < 24 && 0 <= q < 2 * n && p / 2 < q / 2 && #[trigger] related(p, q) ==> cell_at(cur, q)
            != cell_at(cur, p)
    &&& forall|p: int, q: int|
        0 <= p < 2 * n && 2 * n <= q < 24 && #[trigger] related(p, q) ==> cell_at(cur, q) & FORBIDDEN_FLAG
            != 0 && bit(cell_at(cur, q), cell_at(cur, p))
}

pub open spec fn dups_ok(dups: [u16; 3]) -> bool {
    forall|k: int| 0 <= k < 3 ==> 1 <= #[trigger] dups@[k] <= 9
}

proof fn lemma_forbid_bits(c: u16, d: u16)
    requires
        1 <= d <= 9,
    ensures
        (FORBIDDEN_FLAG | ((c & DIGIT_MASK) | (1u16 << d))) & FORBIDDEN_FLAG != 0,
        forall|e: u16| 1 <= e <= 9 ==> #[trigger] bit(FORBIDDEN_FLAG | ((c & DIGIT_MASK) | (1u16 << d)), e)
            == (bit(c, e) || e == d),
{
    assert((FORBIDDEN_FLAG | ((c & DIGIT_MASK) | (1u16 << d))) & FORBIDDEN_FLAG != 0) by (bit_vector)
        requires
            1 <= d <= 9,
    ;
    assert(forall|e: u16| 1 <= e <= 9 ==> #[trigger] bit(FORBIDDEN_FLAG | ((c & DIGIT_MASK) | (1u16 << d)), e)
        == (bit(c, e) || e == d)) by (bit_vector)
        requires
            1 <= d <= 9,
    ;
}

proof fn lemma_bit_test(m: u16, d: u16)
    requires
        d < 16,
    ensures
        ((m & (1u16 << d)) != 0) == bit(m, d),
{
    assert(((m & (1u16 << d)) != 0) == bit(m, d)) by (bit_vector)
        requires
            d < 16,
    ;
}

proof fn lemma_digit_bits(c: u16)
    ensures
        forall|e: u16| 1 <= e <= 9 ==> #[trigger] bit(c & DIGIT_MASK, e) == bit(c, e),
        forall|e: u16| e < 16 && #[trigger] bit(c, e) ==> c != 0,
        1 <= c <= 9 ==> c & FORBIDDEN_FLAG == 0,
{
    assert(forall|e: u16| 1 <= e <= 9 ==> #[trigger] bit(c & DIGIT_MASK, e) == bit(c, e)) by (bit_vector);
    assert(forall|e: u16| e < 16 && #[trigger] bit(c, e) ==> c != 0) by (bit_vector);
    assert(1 <= c <= 9 ==> c & FORBIDDEN_FLAG == 0) by (bit_vector);
}

/// Forbids digit `digit` at a position not yet given one; a placed digit stays.
pub fn add_forbidden_digit_to_constraint(constraint: &mut u16, digit: u16)
    requires
        1 <= digit <= 9,
    ensures
        open_value(*old(constraint)) ==> *final(constraint) == (FORBIDDEN_FLAG | ((*old(constraint)
            & DIGIT_MASK) | (1u16 << digit))),
        !open_value(*old(constraint)) ==> *final(constraint) == *old(constraint),
{
    if *constraint & FORBIDDEN_FLAG != 0 || *constraint == 0 {
        let current_forbidden_mask = *constraint & DIGIT_MASK;
        let new_forbidden_mask = current_forbidden_mask | (1u16 << digit);
        *constraint = FORBIDDEN_FLAG | new_forbidden_mask;
    }
}

/// The forbidden digits at a position (none when it holds a digit or nothing).
pub fn extract_forbidden_digit_mask(constraint_value: u16) -> (r: u16)
    ensures
        r == if constraint_value & FORBIDDEN_FLAG != 0 {
            constraint_value & DIGIT_MASK
        } else {
            0
        },
{
    if constraint_value & FORBIDDEN_FLAG != 0 {
        constraint_value & DIGIT_MASK
    } else {
        0
    }
}

/// No mask, or the digit is in it.
pub fn satisfies_positive_constraints(digit: u16, allowed_mask: u16) -> (r: bool)
    requires
        digit < 16,
    ensures
        r == (allowed_mask == 0 || bit(allowed_mask, digit)),
{
    proof {
        lemma_bit_test(allowed_mask, digit);
    }
    allowed_mask == 0 || (allowed_mask & (1u16 << digit)) != 0
}

/// The digit is in a non-empty forbidden mask.
pub fn is_digit_forbidden(digit: u16, forbidden_mask: u16) -> (r: bool)
    requires
        digit < 16,
    ensures
        r == (forbidden_mask != 0 && bit(forbidden_mask, digit)),
{
    proof {
        lemma_bit_test(forbidden_mask, digit);
    }
    forbidden_mask != 0 && (forbidden_mask & (1u16 << digit)) != 0
}

/// Both digits meet their position's required and forbidden digits.
pub fn is_pair_valid_for_position(
    digit_a: u16,
    digit_b: u16,
    constraint_mask_a: u16,
    constraint_mask_b: u16,
    forbidden_mask_a: u16,
    forbidden_mask_b: u16,
) -> (r: bool)
    requires
        digit_a < 16,
        digit_b < 16,
    ensures
        r == ((constraint_mask_a == 0 || bit(constraint_mask_a, digit_a)) && (constraint_mask_b == 0
            || bit(constraint_mask_b, digit_b)) && !(forbidden_mask_a != 0 && bit(
            forbidden_mask_a,
            digit_a,
        )) && !(forbidden_mask_b != 0 && bit(forbidden_mask_b, digit_b))),
{
    satisfies_positive_constraints(digit_a, constraint_mask_a) && satisfies_positive_constraints(
        digit_b,
        constraint_mask_b,
    ) && !is_digit_forbidden(digit_a, forbidden_mask_a) && !is_digit_forbidden(
        digit_b,
        forbidden_mask_b,
    )
}

/// The digits that position `index` may take: at a linked position, the digit
/// already at its partner, else the repeated digits; elsewhere no restriction (0).
pub fn get_constraint(current: &[Pair; 12], dups: [u16; 3], index: usize) -> (r: u16)
    requires
        index < 24,
        dups_ok(dups),
        forall|p: int| 0 <= p < 24 ==> open_value(#[trigger] cell_at(current@, p)) || 1 <= cell_at(current@, p) <= 9,
    ensures
        (linked(index as int) || linked(index - 12)) ==> {
            let v = cell_at(current@, ((index + 12) % 24) as int);
            if v > 0 && v & FORBIDDEN_FLAG == 0 {
                forall|e: u16| e < 16 ==> #[trigger] bit(r, e) == (e == v)
            } else {
                r != 0 && forall|e: u16| e < 16 && #[trigger] bit(r, e) ==> in_dups(e, dups)
            }
        },
        !(linked(index as int) || linked(index - 12)) ==> r == 0,
{
    if index == 3 || index == 5 || index == 8 || index == 15 || index == 17 || index == 20 {
        let y = (index + 12) % 24;
        let (div, rem) = (y / 2, y % 2);
        let constraint_value = current[div][rem];
        assert(constraint_value == cell_at(current@, y as int));
        if constraint_value > 0 && constraint_value & FORBIDDEN_FLAG == 0 {
            proof {
                crate::mask::lemma_bits_single(constraint_value);
            }
            1u16 << constraint_value
        } else {
            let m = (1u16 << dups[0]) | (1u16 << dups[1]) | (1u16 << dups[2]);
            proof {
                assert(1 <= dups@[0] <= 9 && 1 <= dups@[1] <= 9 && 1 <= dups@[2] <= 9);
                crate::mask::lemma_bits_single(dups[0]);
                crate::mask::lemma_bits_single(dups[1]);
                crate::mask::lemma_bits_single(dups[2]);
                crate::mask::lemma_bits_or((1u16 << dups[0]) | (1u16 << dups[1]), 1u16 << dups[2]);
                crate::mask::lemma_bits_or(1u16 << dups[0], 1u16 << dups[1]);
                lemma_digit_bits(m);
                assert(bit(m, dups[0]));
            }
            m
        }
    } else {
        0
    }
}

/// `c` with digit `d` added to its forbidden digits.
pub open spec fn forbid(c: u16, d: u16) -> u16 {
    FORBIDDEN_FLAG | ((c & DIGIT_MASK) | (1u16 << d))
}

/// Forbids `forbidden_digit` at every open position of `position_mask`.
pub fn apply_digit_constraints_to_positions(current: &mut [Pair; 12], position_mask: u32, forbidden_digit: u16)
    requires
        1 <= forbidden_digit <= 9,
    ensures
        forall|q: int|
            0 <= q < 24 ==> #[trigger] cell_at(final(current)@, q) == if bit32(position_mask, q as u32)
                && open_value(cell_at(old(current)@, q)) {
                forbid(cell_at(old(current)@, q), forbidden_digit)
            } else {
                cell_at(old(current)@, q)
            },
{
    let ghost start = current@;
    let mut q: usize = 0;
    while q < 24
        invariant
            q <= 24,
            1 <= forbidden_digit <= 9,
            forall|p: int|
                0 <= p < 24 ==> #[trigger] cell_at(current@, p) == if p < q && bit32(position_mask, p as u32)
                    && open_value(cell_at(start, p)) {
                    forbid(cell_at(start, p), forbidden_digit)
                } else {
                    cell_at(start, p)
                },
        decreases 24 - q,
    {
        if (position_mask >> (q as u32)) & 1 == 1 {
            let ghost before = current@;
            let mut pair = current[q / 2];
            let mut c = pair[q % 2];
            let ghost c_old = c;
            assert(c_old == cell_at(current@, q as int));
            assert(c_old == cell_at(start, q as int));
            add_forbidden_digit_to_constraint(&mut c, forbidden_digit);
            pair[q % 2] = c;
            current[q / 2] = pair;
            proof {
                assert forall|p: int| 0 <= p < 24 implies #[trigger] cell_at(current@, p) == if p < q + 1
                    && bit32(position_mask, p as u32) && open_value(cell_at(start, p)) {
                    forbid(cell_at(start, p), forbidden_digit)
                } else {
                    cell_at(start, p)
                } by {
                    if p != q {
                        assert(p / 2 != q / 2 || p % 2 != q % 2);
                        assert(cell_at(current@, p) == cell_at(before, p));
                    } else {
                        assert(cell_at(current@, p) == c);
                        assert(bit32(position_mask, p as u32));
                    }
                }
            }
        }
        q = q + 1;
    }
}

/// Forbids digit `digit_a` at the positions related to the first position of
/// pair `index`, and `digit_b` at those related to its second.
pub fn apply_constraints(current: &mut [Pair; 12], index: usize, digit_a: u16, digit_b: u16)
    requires
        index < 12,
        1 <= digit_a <= 9,
        1 <= digit_b <= 9,
    ensures
        forall|q: int|
            0 <= q < 24 && !open_value(cell_at(old(current)@, q)) ==> #[trigger] cell_at(final(current)@, q)
                == cell_at(old(current)@, q),
        forall|q: int|
            0 <= q < 24 && open_value(cell_at(old(current)@, q)) ==> open_value(
                #[trigger] cell_at(final(current)@, q),
            ),
        forall|q: int|
            0 <= q < 24 && cell_at(old(current)@, q) & FORBIDDEN_FLAG != 0 ==> #[trigger] cell_at(
                final(current)@,
                q,
            ) & FORBIDDEN_FLAG != 0,
        forall|q: int, e: u16|
            0 <= q < 24 && 1 <= e <= 9 && open_value(cell_at(old(current)@, q)) && bit(
                cell_at(old(current)@, q),
                e,
            ) ==> #[trigger] bit(cell_at(final(current)@, q), e),
        forall|q: int|
            0 <= q < 24 && open_value(cell_at(old(current)@, q)) && related(2 * index, q) ==> #[trigger] cell_at(
                final(current)@,
                q,
            ) & FORBIDDEN_FLAG != 0 && bit(cell_at(final(current)@, q), digit_a),
        forall|q: int|
            0 <= q < 24 && open_value(cell_at(old(current)@, q)) && related(2 * index + 1, q) ==> #[trigger] cell_at(
                final(current)@,
                q,
            ) & FORBIDDEN_FLAG != 0 && bit(cell_at(final(current)@, q), digit_b),
{
    let ghost c0 = current@;
    apply_digit_constraints_to_positions(current, constraint_mask_of(index * 2), digit_a);
    let ghost c1 = current@;
    apply_digit_constraints_to_positions(current, constraint_mask_of(index * 2 + 1), digit_b);
    proof {
        assert forall|q: int| 0 <= q < 24 implies {
            let v0 = cell_at(c0, q);
            let v1 = cell_at(c1, q);
            let v2 = #[trigger] cell_at(current@, q);
            &&& !open_value(v0) ==> v2 == v0
            &&& open_value(v0) ==> open_value(v2)
            &&& v0 & FORBIDDEN_FLAG != 0 ==> v2 & FORBIDDEN_FLAG != 0
            &&& forall|e: u16| 1 <= e <= 9 && open_value(v0) && bit(v0, e) ==> #[trigger] bit(v2, e)
            &&& open_value(v0) && related(2 * index, q) ==> v2 & FORBIDDEN_FLAG != 0 && bit(v2, digit_a)
            &&& open_value(v0) && related(2 * index + 1, q) ==> v2 & FORBIDDEN_FLAG != 0 && bit(v2, digit_b)
        } by {
            let v0 = cell_at(c0, q);
            let v1 = cell_at(c1, q);
            let v2 = cell_at(current@, q);
            lemma_forbid_bits(v0, digit_a);
            lemma_forbid_bits(v1, digit_b);
            assert(open_value(v1) == open_value(v0)) by {
                if open_value(v0) && bit32(constraint_mask(2 * index), q as u32) {
                    assert(v1 & FORBIDDEN_FLAG != 0);
                }
            }
        }
    }
}

/// Copies a list of pairs.
pub fn copy_pairs(pairs: &Vec<Pair>) -> (r: Vec<Pair>)
    ensures
        r@ == pairs@,
{
    let mut r: Vec<Pair> = Vec::new();
    let mut i: usize = 0;
    while i < pairs.len()
        invariant
            i <= pairs.len(),
            r@ == pairs@.take(i as int),
        decreases pairs.len() - i,
    {
        r.push(pairs[i]);
        proof {
            assert(pairs@.take(i + 1) =~= pairs@.take(i as int).push(pairs@[i as int]));
        }
        i = i + 1;
    }
    assert(pairs@.take(pairs.len() as int) =~= pairs@);
    r
}

/// Placing an input pair of the right half at place `index` extends the filled places.
proof fn lemma_placed_extend(cur: Seq<Pair>, next: Seq<Pair>, set: Seq<Pair>, index: int, a: u16, b: u16, x: Pair)
    requires
        0 <= index < 12,
        placed_upto(cur, set, index),
        forall|p: int| 0 <= p < 2 * index ==> #[trigger] cell_at(next, p) == cell_at(cur, p),
        cell_at(next, 2 * index) == a,
        cell_at(next, 2 * index + 1) == b,
        in_half(x, set, index < 6),
        (a == x@[0] && b == x@[1]) || (a == x@[1] && b == x@[0]),
    ensures
        placed_upto(next, set, index + 1),
{
    assert forall|k: int| 0 <= k < index + 1 implies #[trigger] placed_from(next, set, k) by {
        if k < index {
            assert(placed_from(cur, set, k));
            let j = choose|j: int|
                (if k < 6 { 0 <= j < 6 } else { 6 <= j < 12 }) && ((cell_at(cur, 2 * k) == (#[trigger] set[j])@[0]
                    && cell_at(cur, 2 * k + 1) == set[j]@[1]) || (cell_at(cur, 2 * k) == set[j]@[1] && cell_at(
                    cur,
                    2 * k + 1,
                ) == set[j]@[0]));
            assert(cell_at(next, 2 * k) == cell_at(cur, 2 * k));
            assert(cell_at(next, 2 * k + 1) == cell_at(cur, 2 * k + 1));
        } else {
            let j = choose|j: int| (if index < 6 { 0 <= j < 6 } else { 6 <= j < 12 }) && x == #[trigger] set[j];
            assert(set[j] == x);
        }
    }
}

/// Places whose values did not change keep their pairs.
proof fn lemma_placed_same(p1: Seq<Pair>, p2: Seq<Pair>, set: Seq<Pair>, n: int)
    requires
        0 <= n <= 12,
        placed_upto(p1, set, n),
        forall|p: int| 0 <= p < 2 * n ==> #[trigger] cell_at(p2, p) == cell_at(p1, p),
    ensures
        placed_upto(p2, set, n),
{
    assert forall|k: int| 0 <= k < n implies #[trigger] placed_from(p2, set, k) by {
        assert(placed_from(p1, set, k));
        assert(cell_at(p2, 2 * k) == cell_at(p1, 2 * k));
        assert(cell_at(p2, 2 * k + 1) == cell_at(p1, 2 * k + 1));
    }
}

/// Taking pair `i` of the available ones leaves the right pairs for the next place.
proof fn lemma_remaining_step(rem: Seq<Pair>, set: Seq<Pair>, index: int, i: int)
    requires
        0 <= index < 11,
        remaining_ok(rem, set, index),
        0 <= i < (if index < 6 { rem.len() - 6 } else { rem.len() as int }),
    ensures
        remaining_ok(rem.remove(i), set, index + 1),
        in_half(rem[i], set, index < 6),
{
    let r2 = rem.remove(i);
    if index < 6 {
        assert(in_half(rem[i], set, true));
        if index + 1 < 6 {
            assert(r2.subrange(r2.len() - 6, r2.len() as int) =~= rem.subrange(rem.len() - 6, rem.len() as int));
            assert forall|k: int| 0 <= k < r2.len() - 6 implies in_half(#[trigger] r2[k], set, true) by {
                if k < i {
                    assert(r2[k] == rem[k]);
                } else {
                    assert(r2[k] == rem[k + 1]);
                }
            }
        } else {
            assert(i == 0);
            assert forall|k: int| 0 <= k < r2.len() implies in_half(#[trigger] r2[k], set, false) by {
                assert(r2[k] == rem[k + 1]);
                assert(rem[k + 1] == rem.subrange(rem.len() - 6, rem.len() as int)[k]);
                assert(set.subrange(6, 12)[k] == set[6 + k]);
            }
        }
    } else {
        assert forall|k: int| 0 <= k < r2.len() implies in_half(#[trigger] r2[k], set, false) by {
            if k < i {
                assert(r2[k] == rem[k]);
            } else {
                assert(r2[k] == rem[k + 1]);
            }
        }
    }
}

/// Places every remaining pair, in either orientation, on pair `index` where
/// its digits meet the required and forbidden digits there, and goes on to the
/// next pair; appends each complete assignment. Up to pair 5 only the pairs of
/// the first half (all but the last six) are tried.
#[verifier::rlimit(60)]
fn fill_constraints_internal(
    current: [Pair; 12],
    index: usize,
    pairs: &Vec<Pair>,
    dups: [u16; 3],
    results: &mut Vec<[Pair; 12]>,
    set: Ghost<Seq<Pair>>,
)
    requires
        index < 12,
        pairs.len() == 12 - index,
        digits_ok(pairs@),
        dups_ok(dups),
        search_ok(current@, index as int, dups),
        remaining_ok(pairs@, set@, index as int),
        placed_upto(current@, set@, index as int),
    ensures
        final(results)@.len() >= old(results)@.len(),
        final(results)@.subrange(0, old(results)@.len() as int) == old(results)@,
        forall|k: int|
            old(results)@.len() <= k < final(results)@.len() ==> assignment_ok(
                #[trigger] final(results)@[k]@,
                dups,
            ) && placed_upto(final(results)@[k]@, set@, 12),
    decreases 12 - index,
{
    let ghost res0 = results@;
    proof {
        assert forall|p: int| 0 <= p < 24 implies open_value(#[trigger] cell_at(current@, p)) || 1
            <= cell_at(current@, p) <= 9 by {
            if p < 2 * index {
                assert(1 <= cell_at(current@, p) <= 9);
            }
        }
    }
    let constraint_a = get_constraint(&current, dups, index * 2);
    let constraint_b = get_constraint(&current, dups, index * 2 + 1);
    let cur_a = current[index][0];
    let cur_b = current[index][1];
    assert(cur_a == cell_at(current@, 2 * index));
    assert(cur_b == cell_at(current@, 2 * index + 1));
    let mask_a = extract_forbidden_digit_mask(cur_a);
    let mask_b = extract_forbidden_digit_mask(cur_b);
    let available = if index < 6 {
        pairs.len() - 6
    } else {
        pairs.len()
    };
    let mut i: usize = 0;
    while i < available
        invariant
            i <= available <= pairs.len(),
            available == if index < 6 { pairs.len() - 6 } else { pairs.len() as int },
            index < 12,
            pairs.len() == 12 - index,
            digits_ok(pairs@),
            dups_ok(dups),
            search_ok(current@, index as int, dups),
            cur_a == cell_at(current@, 2 * index),
            cur_b == cell_at(current@, 2 * index + 1),
            mask_a == if cur_a & FORBIDDEN_FLAG != 0 { cur_a & DIGIT_MASK } else { 0 },
            mask_b == if cur_b & FORBIDDEN_FLAG != 0 { cur_b & DIGIT_MASK } else { 0 },
            linked(2 * index) || linked(2 * index - 12) ==> {
                let v = cell_at(current@, ((2 * index + 12) % 24) as int);
                if v > 0 && v & FORBIDDEN_FLAG == 0 {
                    forall|e: u16| e < 16 ==> #[trigger] bit(constraint_a, e) == (e == v)
                } else {
                    constraint_a != 0 && forall|e: u16| e < 16 && #[trigger] bit(constraint_a, e) ==> in_dups(e, dups)
                }
            },
            !(linked(2 * index) || linked(2 * index - 12)) ==> constraint_a == 0,
            linked(2 * index + 1) || linked(2 * index + 1 - 12) ==> {
                let v = cell_at(current@, ((2 * index + 1 + 12) % 24) as int);
                if v > 0 && v & FORBIDDEN_FLAG == 0 {
                    forall|e: u16| e < 16 ==> #[trigger] bit(constraint_b, e) == (e == v)
                } else {
                    constraint_b != 0 && forall|e: u16| e < 16 && #[trigger] bit(constraint_b, e) ==> in_dups(e, dups)
                }
            },
            !(linked(2 * index + 1) || linked(2 * index + 1 - 12)) ==> constraint_b == 0,
            results@.len() >= res0.len(),
            results@.subrange(0, res0.len() as int) == res0,
            forall|k: int| res0.len() <= k < results@.len() ==> assignment_ok(#[trigger] results@[k]@, dups) && placed_upto(results@[k]@, set@, 12),
            remaining_ok(pairs@, set@, index as int),
            placed_upto(current@, set@, index as int),
        decreases available - i,
    {
        let x = pairs[i][0];
        let y = pairs[i][1];
        proof {
            if index < 11 {
                lemma_remaining_step(pairs@, set@, index as int, i as int);
            } else {
                assert(in_half(pairs@[i as int], set@, false));
            }
        }
        assert(1 <= pairs@[i as int]@[0] <= 9 && 1 <= pairs@[i as int]@[1] <= 9);
        let mut o: usize = 0;
        while o < 2
            invariant
                o <= 2,
                i < available <= pairs.len(),
                available == if index < 6 { pairs.len() - 6 } else { pairs.len() as int },
                index < 12,
                pairs.len() == 12 - index,
                digits_ok(pairs@),
                dups_ok(dups),
                1 <= x <= 9,
                1 <= y <= 9,
                x == pairs@[i as int]@[0],
                y == pairs@[i as int]@[1],
                in_half(pairs@[i as int], set@, index < 6),
                search_ok(current@, index as int, dups),
                cur_a == cell_at(current@, 2 * index),
                cur_b == cell_at(current@, 2 * index + 1),
                mask_a == if cur_a & FORBIDDEN_FLAG != 0 { cur_a & DIGIT_MASK } else { 0 },
                mask_b == if cur_b & FORBIDDEN_FLAG != 0 { cur_b & DIGIT_MASK } else { 0 },
                linked(2 * index) || linked(2 * index - 12) ==> {
                    let v = cell_at(current@, ((2 * index + 12) % 24) as int);
                    if v > 0 && v & FORBIDDEN_FLAG == 0 {
                        forall|e: u16| e < 16 ==> #[trigger] bit(constraint_a, e) == (e == v)
                    } else {
                        constraint_a != 0 && forall|e: u16| e < 16 && #[trigger] bit(constraint_a, e) ==> in_dups(e, dups)
                    }
                },
                !(linked(2 * index) || linked(2 * index - 12)) ==> constraint_a == 0,
                linked(2 * index + 1) || linked(2 * index + 1 - 12) ==> {
                    let v = cell_at(current@, ((2 * index + 1 + 12) % 24) as int);
                    if v > 0 && v & FORBIDDEN_FLAG == 0 {
                        forall|e: u16| e < 16 ==> #[trigger] bit(constraint_b, e) == (e == v)
                    } else {
                        constraint_b != 0 && forall|e: u16| e < 16 && #[trigger] bit(constraint_b, e) ==> in_dups(e, dups)
                    }
                },
                !(linked(2 * index + 1) || linked(2 * index + 1 - 12)) ==> constraint_b == 0,
                results@.len() >= res0.len(),
                results@.subrange(0, res0.len() as int) == res0,
                forall|k: int| res0.len() <= k < results@.len() ==> assignment_ok(#[trigger] results@[k]@, dups) && placed_upto(results@[k]@, set@, 12),
            remaining_ok(pairs@, set@, index as int),
            placed_upto(current@, set@, index as int),
            decreases 2 - o,
        {
            let (a, b) = if o == 0 {
                (x, y)
            } else {
                (y, x)
            };
            if is_pair_valid_for_position(a, b, constraint_a, constraint_b, mask_a, mask_b) {
                let mut new_current = current;
                new_current[index] = [a, b];
                proof {
                    lemma_place(current@, new_current@, index as int, a, b, dups, constraint_a, constraint_b, mask_a, mask_b);
                    lemma_placed_extend(current@, new_current@, set@, index as int, a, b, pairs@[i as int]);
                }
                if index == 11 {
                    let ghost before = results@;
                    results.push(new_current);
                    proof {
                        assert(results@.subrange(0, res0.len() as int) =~= before.subrange(0, res0.len() as int));
                    }
                } else {
                    let ghost placed = new_current@;
                    apply_constraints(&mut new_current, index, a, b);
                    proof {
                        lemma_after_apply(placed, new_current@, index as int, a, b, dups);
                        lemma_placed_same(placed, new_current@, set@, index + 1);
                    }
                    let mut remaining_pairs = copy_pairs(pairs);
                    remaining_pairs.remove(i);
                    proof {
                        lemma_remaining_step(pairs@, set@, index as int, i as int);
                        assert forall|k: int| 0 <= k < remaining_pairs@.len() implies 1 <= (#[trigger] remaining_pairs@[k])@[0] <= 9
                            && 1 <= remaining_pairs@[k]@[1] <= 9 by {
                            if k < i {
                                assert(remaining_pairs@[k] == pairs@[k]);
                            } else {
                                assert(remaining_pairs@[k] == pairs@[k + 1]);
                            }
                        }
                    }
                    let ghost before = results@;
                    fill_constraints_internal(new_current, index + 1, &remaining_pairs, dups, results, set);
                    proof {
                        assert(results@.subrange(0, before.len() as int) == before);
                        assert(results@.subrange(0, res0.len() as int) =~= before.subrange(0, res0.len() as int));
                        assert forall|k: int| res0.len() <= k < results@.len() implies assignment_ok(#[trigger] results@[k]@, dups) && placed_upto(results@[k]@, set@, 12) by {
                            if k < before.len() {
                                assert(results@[k] == results@.subrange(0, before.len() as int)[k]);
                            }
                        }
                    }
                }
            }
            o = o + 1;
        }
        i = i + 1;
    }
}

/// Placing a pair that meets the checks keeps the placed part consistent.
proof fn lemma_place(
    cur: Seq<Pair>,
    next: Seq<Pair>,
    index: int,
    a: u16,
    b: u16,
    dups: [u16; 3],
    constraint_a: u16,
    constraint_b: u16,
    mask_a: u16,
    mask_b: u16,
)
    requires
        0 <= index < 12,
        1 <= a <= 9,
        1 <= b <= 9,
        dups_ok(dups),
        search_ok(cur, index, dups),
        next == cur.update(index, [a, b]),
        mask_a == if cell_at(cur, 2 * index) & FORBIDDEN_FLAG != 0 { cell_at(cur, 2 * index) & DIGIT_MASK } else { 0 },
        mask_b == if cell_at(cur, 2 * index + 1) & FORBIDDEN_FLAG != 0 { cell_at(cur, 2 * index + 1) & DIGIT_MASK } else { 0 },
        linked(2 * index) || linked(2 * index - 12) ==> {
            let v = cell_at(cur, ((2 * index + 12) % 24) as int);
            if v > 0 && v & FORBIDDEN_FLAG == 0 {
                forall|e: u16| e < 16 ==> #[trigger] bit(constraint_a, e) == (e == v)
            } else {
                constraint_a != 0 && forall|e: u16| e < 16 && #[trigger] bit(constraint_a, e) ==> in_dups(e, dups)
            }
        },
        linked(2 * index + 1) || linked(2 * index + 1 - 12) ==> {
            let v = cell_at(cur, ((2 * index + 1 + 12) % 24) as int);
            if v > 0 && v & FORBIDDEN_FLAG == 0 {
                forall|e: u16| e < 16 ==> #[trigger] bit(constraint_b, e) == (e == v)
            } else {
                constraint_b != 0 && forall|e: u16| e < 16 && #[trigger] bit(constraint_b, e) ==> in_dups(e, dups)
            }
        },
        (constraint_a == 0 || bit(constraint_a, a)) && (constraint_b == 0 || bit(constraint_b, b))
            && !(mask_a != 0 && bit(mask_a, a)) && !(mask_b != 0 && bit(mask_b, b)),
    ensures
        next.len() == 12,
        forall|p: int| 0 <= p < 2 * index + 2 ==> 1 <= #[trigger] cell_at(next, p) <= 9,
        forall|p: int| 2 * index + 2 <= p < 24 ==> #[trigger] cell_at(next, p) == cell_at(cur, p),
        forall|p: int| #[trigger] linked(p) && p < 2 * index + 2 ==> in_dups(cell_at(next, p), dups),
        forall|p: int| #[trigger] linked(p) && p + 12 < 2 * index + 2 ==> cell_at(next, p + 12) == cell_at(next, p),
        forall|p: int, q: int|
            0 <= p < 24 && 0 <= q < 2 * index + 2 && p / 2 < q / 2 && #[trigger] related(p, q) ==> cell_at(next, q)
                != cell_at(next, p),
        forall|p: int| 0 <= p < 2 * index ==> #[trigger] cell_at(next, p) == cell_at(cur, p),
        cell_at(next, 2 * index) == a,
        cell_at(next, 2 * index + 1) == b,
{
    assert forall|p: int| 0 <= p < 24 && p / 2 != index implies #[trigger] cell_at(next, p) == cell_at(cur, p) by {
    }
    let va = cell_at(cur, 2 * index);
    let vb = cell_at(cur, 2 * index + 1);
    lemma_digit_bits(va);
    lemma_digit_bits(vb);
    assert forall|p: int, q: int|
        0 <= p < 24 && 0 <= q < 2 * index + 2 && p / 2 < q / 2 && #[trigger] related(p, q) implies cell_at(next, q)
            != cell_at(next, p) by {
        if q >= 2 * index {
            let vp = cell_at(cur, p);
            assert(p < 2 * index);
            assert(1 <= vp <= 9);
            if q == 2 * index {
                assert(bit(va, vp) && va & FORBIDDEN_FLAG != 0);
                assert(bit(mask_a, vp));
                lemma_digit_bits(mask_a);
            } else {
                assert(q == 2 * index + 1);
                assert(bit(vb, vp) && vb & FORBIDDEN_FLAG != 0);
                assert(bit(mask_b, vp));
                lemma_digit_bits(mask_b);
            }
        }
    }
    assert forall|p: int| #[trigger] linked(p) && p < 2 * index + 2 implies in_dups(cell_at(next, p), dups) by {
        if p >= 2 * index {
            let v = cell_at(cur, p + 12);
            assert(open_value(v));
            lemma_digit_bits(v);
            if p == 2 * index {
                assert((2 * index + 12) % 24 == p + 12);
                lemma_digit_bits(constraint_a);
                assert(constraint_a != 0);
                assert(bit(constraint_a, a));
            } else {
                assert((2 * index + 1 + 12) % 24 == p + 12);
                lemma_digit_bits(constraint_b);
                assert(constraint_b != 0);
                assert(bit(constraint_b, b));
            }
        }
    }
    assert forall|p: int| #[trigger] linked(p) && p + 12 < 2 * index + 2 implies cell_at(next, p + 12) == cell_at(next, p) by {
        if p + 12 >= 2 * index {
            let v = cell_at(cur, p);
            assert(1 <= v <= 9);
            lemma_digit_bits(v);
            if p + 12 == 2 * index {
                assert((2 * index + 12) % 24 == p);
                assert(linked(2 * index - 12));
                assert(bit(constraint_a, v));
                lemma_digit_bits(constraint_a);
                assert(bit(constraint_a, a));
            } else {
                assert((2 * index + 1 + 12) % 24 == p);
                assert(linked(2 * index + 1 - 12));
                assert(bit(constraint_b, v));
                lemma_digit_bits(constraint_b);
                assert(bit(constraint_b, b));
            }
        }
    }
}

/// After the forbidden digits of a placed pair are spread, the search may go on
/// with the next pair.
proof fn lemma_after_apply(placed: Seq<Pair>, next: Seq<Pair>, index: int, a: u16, b: u16, dups: [u16; 3])
    requires
        0 <= index < 11,
        1 <= a <= 9,
        1 <= b <= 9,
        placed.len() == 12,
        next.len() == 12,
        forall|p: int| 0 <= p < 2 * index + 2 ==> 1 <= #[trigger] cell_at(placed, p) <= 9,
        forall|p: int| 2 * index + 2 <= p < 24 ==> open_value(#[trigger] cell_at(placed, p)),
        forall|p: int| #[trigger] linked(p) && p < 2 * index + 2 ==> in_dups(cell_at(placed, p), dups),
        forall|p: int| #[trigger] linked(p) && p + 12 < 2 * index + 2 ==> cell_at(placed, p + 12) == cell_at(placed, p),
        forall|p: int, q: int|
            0 <= p < 24 && 0 <= q < 2 * index + 2 && p / 2 < q / 2 && #[trigger] related(p, q) ==> cell_at(placed, q)
                != cell_at(placed, p),
        forall|p: int, q: int|
            0 <= p < 2 * index && 2 * index + 2 <= q < 24 && #[trigger] related(p, q) ==> cell_at(placed, q)
                & FORBIDDEN_FLAG != 0 && bit(cell_at(placed, q), cell_at(placed, p)),
        cell_at(placed, 2 * index) == a,
        cell_at(placed, 2 * index + 1) == b,
        forall|q: int|
            0 <= q < 24 && !open_value(cell_at(placed, q)) ==> #[trigger] cell_at(next, q) == cell_at(placed, q),
        forall|q: int| 0 <= q < 24 && open_value(cell_at(placed, q)) ==> open_value(#[trigger] cell_at(next, q)),
        forall|q: int|
            0 <= q < 24 && cell_at(placed, q) & FORBIDDEN_FLAG != 0 ==> #[trigger] cell_at(next, q) & FORBIDDEN_FLAG != 0,
        forall|q: int, e: u16|
            0 <= q < 24 && 1 <= e <= 9 && open_value(cell_at(placed, q)) && bit(cell_at(placed, q), e) ==> #[trigger] bit(
                cell_at(next, q),
                e,
            ),
        forall|q: int|
            0 <= q < 24 && open_value(cell_at(placed, q)) && related(2 * index, q) ==> #[trigger] cell_at(next, q)
                & FORBIDDEN_FLAG != 0 && bit(cell_at(next, q), a),
        forall|q: int|
            0 <= q < 24 && open_value(cell_at(placed, q)) && related(2 * index + 1, q) ==> #[trigger] cell_at(next, q)
                & FORBIDDEN_FLAG != 0 && bit(cell_at(next, q), b),
    ensures
        search_ok(next, index + 1, dups),
        forall|p: int| 0 <= p < 2 * index + 2 ==> #[trigger] cell_at(next, p) == cell_at(placed, p),
{
    assert forall|p: int| 0 <= p < 2 * index + 2 implies #[trigger] cell_at(next, p) == cell_at(placed, p) by {
        lemma_digit_bits(cell_at(placed, p));
    }
    assert forall|p: int, q: int|
        0 <= p < 2 * (index + 1) && 2 * (index + 1) <= q < 24 && #[trigger] related(p, q) implies cell_at(next, q)
            & FORBIDDEN_FLAG != 0 && bit(cell_at(next, q), cell_at(next, p)) by {
        let vp = cell_at(placed, p);
        assert(1 <= vp <= 9);
        assert(open_value(cell_at(placed, q)));
        if p < 2 * index {
            assert(bit(cell_at(placed, q), vp));
        } else if p == 2 * index {
        } else {
            assert(p == 2 * index + 1);
        }
    }
}

/// Every assignment of the twelve pairs to the twelve places, the first six
/// pairs to the first six places and the rest to the others, each in either
/// orientation, that meets the linked positions and the related positions as
/// the search checks them; appended to `results`.
pub fn fill_constraints(set: &[Pair; 12], dups: [u16; 3], results: &mut Vec<[Pair; 12]>)
    requires
        digits_ok(set@),
        dups_ok(dups),
    ensures
        final(results)@.len() >= old(results)@.len(),
        final(results)@.subrange(0, old(results)@.len() as int) == old(results)@,
        forall|k: int|
            old(results)@.len() <= k < final(results)@.len() ==> assignment_ok(
                #[trigger] final(results)@[k]@,
                dups,
            ) && placed_upto(final(results)@[k]@, set@, 12),
{
    let mut pairs: Vec<Pair> = Vec::new();
    let mut i: usize = 0;
    while i < 12
        invariant
            i <= 12,
            pairs@ == set@.take(i as int),
        decreases 12 - i,
    {
        pairs.push(set[i]);
        proof {
            assert(set@.take(i + 1) =~= set@.take(i as int).push(set@[i as int]));
        }
        i = i + 1;
    }
    assert(set@.take(12) =~= set@);
    let start: [Pair; 12] = [[0, 0]; 12];
    proof {
        assert forall|p: int| 0 <= p < 24 implies open_value(#[trigger] cell_at(start@, p)) by {
            assert(start@[p / 2] == [0u16, 0u16]);
        }
    }
    proof {
        assert(pairs@.subrange(6, 12) =~= set@.subrange(6, 12));
        assert forall|k: int| 0 <= k < 6 implies in_half(#[trigger] pairs@[k], set@, true) by {
            assert(pairs@[k] == set@[k]);
        }
    }
    fill_constraints_internal(start, 0, &pairs, dups, results, Ghost(set@));
}

/// Whether a complete assignment meets every constraint: the linked positions
/// repeat three distinct repeated digits, and related positions differ.
pub fn check_constraints(solution: &[Pair; 12], dups: [u16; 3]) -> (r: bool)
    ensures
        r == constraints_hold(solution@, dups),
{
    let a1 = solution[1][1];
    let b1 = solution[2][1];
    let c1 = solution[4][0];
    let a2 = solution[7][1];
    let b2 = solution[8][1];
    let c2 = solution[10][0];
    assert(a1 == cell_at(solution@, 3) && b1 == cell_at(solution@, 5) && c1 == cell_at(solution@, 8));
    assert(a2 == cell_at(solution@, 15) && b2 == cell_at(solution@, 17) && c2 == cell_at(solution@, 20));
    if a1 != a2 || b1 != b2 || c1 != c2 {
        return false;
    }
    if a1 == b1 || b1 == c1 || c1 == a1 {
        return false;
    }
    let in_a = a1 == dups[0] || a1 == dups[1] || a1 == dups[2];
    let in_b = b1 == dups[0] || b1 == dups[1] || b1 == dups[2];
    let in_c = c1 == dups[0] || c1 == dups[1] || c1 == dups[2];
    if !in_a || !in_b || !in_c {
        return false;
    }
    let mut i: usize = 0;
    while i < 24
        invariant
            i <= 24,
            forall|p: int, q: int| 0 <= p < i && 0 <= q < 24 && #[trigger] related(p, q) ==> cell_at(solution@, q) != cell_at(solution@, p),
        decreases 24 - i,
    {
        let mask = constraint_mask_of(i);
        let digit_i = solution[i / 2][i % 2];
        let mut j: usize = 0;
        while j < 24
            invariant
                i < 24,
                j <= 24,
                mask == constraint_mask(i as int),
                digit_i == cell_at(solution@, i as int),
                forall|p: int, q: int| 0 <= p < i && 0 <= q < 24 && #[trigger] related(p, q) ==> cell_at(solution@, q) != cell_at(solution@, p),
                forall|q: int| 0 <= q < j && #[trigger] related(i as int, q) ==> cell_at(solution@, q) != digit_i,
            decreases 24 - j,
        {
            if (mask >> (j as u32)) & 1 == 1 && solution[j / 2][j % 2] == digit_i {
                assert(related(i as int, j as int));
                return false;
            }
            j = j + 1;
        }
        i = i + 1;
    }
    true
}

} // verus!
