use vstd::prelude::*;

verus! {

/// Bit `i` of a 16-bit word.
pub open spec fn bit(m: u16, i: u16) -> bool {
    (m >> i) & 1u16 == 1u16
}

/// Number of set bits among the lowest `n` bits of `m`.
pub open spec fn pop_upto(m: u16, n: nat) -> nat
    decreases n,
{
    if n == 0 {
        0
    } else {
        pop_upto(m, (n - 1) as nat) + if bit(m, (n - 1) as u16) {
            1nat
        } else {
            0nat
        }
    }
}

/// Number of set bits among bits 0..9, the digit bits.
pub open spec fn pop9(m: u16) -> nat {
    pop_upto(m, 9)
}

/// Index of the lowest set bit at or above `i` among bits 0..9 (9 if none).
pub open spec fn first_bit_from(m: u16, i: nat) -> nat
    decreases 9 - i,
{
    if i >= 9 {
        9
    } else if bit(m, i as u16) {
        i
    } else {
        first_bit_from(m, i + 1)
    }
}

/// A set of digits 1..=9: bit `d - 1` stands for digit `d`.
#[derive(Clone, Copy, PartialEq, Eq, Structural, Debug)]
pub struct Mask(pub u16);

/// Digit `d` belongs to mask `m`.
pub open spec fn mask_has(m: Mask, d: int) -> bool {
    1 <= d <= 9 && bit(m.0, (d - 1) as u16)
}

/// No bit outside the nine digit bits is set.
pub open spec fn mask_wf(m: Mask) -> bool {
    m.0 < 512
}

/// Every digit of `a` is a digit of `b`.
pub open spec fn mask_subset(a: Mask, b: Mask) -> bool {
    forall|d: int| #[trigger] mask_has(a, d) ==> mask_has(b, d)
}

/// Number of digits in `m`.
pub open spec fn mask_len(m: Mask) -> nat {
    pop9(m.0)
}

pub proof fn lemma_bits_and(a: u16, b: u16)
    ensures
        forall|i: u16| i < 16 ==> #[trigger] bit(a & b, i) == (bit(a, i) && bit(b, i)),
{
    assert(forall|i: u16| i < 16 ==> #[trigger] bit(a & b, i) == (bit(a, i) && bit(b, i)))
        by (bit_vector);
}

pub proof fn lemma_bits_or(a: u16, b: u16)
    ensures
        forall|i: u16| i < 16 ==> #[trigger] bit(a | b, i) == (bit(a, i) || bit(b, i)),
{
    assert(forall|i: u16| i < 16 ==> #[trigger] bit(a | b, i) == (bit(a, i) || bit(b, i)))
        by (bit_vector);
}

pub proof fn lemma_bits_not(a: u16)
    ensures
        forall|i: u16| i < 16 ==> #[trigger] bit(!a, i) == !bit(a, i),
{
    assert(forall|i: u16| i < 16 ==> #[trigger] bit(!a, i) == !bit(a, i)) by (bit_vector);
}

pub proof fn lemma_bits_single(j: u16)
    requires
        j < 16,
    ensures
        forall|i: u16| i < 16 ==> #[trigger] bit(1u16 << j, i) == (i == j),
{
    assert(forall|i: u16| i < 16 ==> #[trigger] bit(1u16 << j, i) == (i == j)) by (bit_vector)
        requires
            j < 16,
    ;
}

pub proof fn lemma_bits_low(a: u16)
    ensures
        a < 512 ==> forall|i: u16| 9 <= i < 16 ==> !#[trigger] bit(a, i),
        (a & 0x1ffu16) < 512,
        forall|i: u16| i < 9 ==> #[trigger] bit(a & 0x1ffu16, i) == bit(a, i),
{
    assert(a < 512 ==> forall|i: u16| 9 <= i < 16 ==> !#[trigger] bit(a, i)) by (bit_vector);
    assert((a & 0x1ffu16) < 512) by (bit_vector);
    assert(forall|i: u16| i < 9 ==> #[trigger] bit(a & 0x1ffu16, i) == bit(a, i)) by (bit_vector);
}

pub proof fn lemma_and_low(a: u16, b: u16)
    requires
        a < 512 || b < 512,
    ensures
        (a & b) < 512,
{
    assert((a < 512 || b < 512) ==> (a & b) < 512) by (bit_vector);
}

/// Two words below 512 with the same nine low bits are equal.
pub proof fn lemma_bits_ext(a: u16, b: u16)
    requires
        a < 512,
        b < 512,
        forall|i: u16| i < 9 ==> #[trigger] bit(a, i) == bit(b, i),
    ensures
        a == b,
{
    assert(bit(a, 0) == bit(b, 0));
    assert(bit(a, 1) == bit(b, 1));
    assert(bit(a, 2) == bit(b, 2));
    assert(bit(a, 3) == bit(b, 3));
    assert(bit(a, 4) == bit(b, 4));
    assert(bit(a, 5) == bit(b, 5));
    assert(bit(a, 6) == bit(b, 6));
    assert(bit(a, 7) == bit(b, 7));
    assert(bit(a, 8) == bit(b, 8));
    assert(a == b) by (bit_vector)
        requires
            a < 512,
            b < 512,
            bit(a, 0) == bit(b, 0),
            bit(a, 1) == bit(b, 1),
            bit(a, 2) == bit(b, 2),
            bit(a, 3) == bit(b, 3),
            bit(a, 4) == bit(b, 4),
            bit(a, 5) == bit(b, 5),
            bit(a, 6) == bit(b, 6),
            bit(a, 7) == bit(b, 7),
            bit(a, 8) == bit(b, 8),
    ;
}

pub proof fn lemma_pop_upto_bound(m: u16, n: nat)
    ensures
        pop_upto(m, n) <= n,
    decreases n,
{
    if n > 0 {
        lemma_pop_upto_bound(m, (n - 1) as nat);
    }
}

/// The bits of `a` among the lowest `n` are also bits of `b`: `a` counts no more,
/// and strictly fewer when `b` has one of them that `a` lacks.
pub proof fn lemma_pop_upto_subset(a: u16, b: u16, n: nat)
    requires
        n <= 16,
        forall|i: u16| i < n ==> #[trigger] bit(a, i) ==> bit(b, i),
    ensures
        pop_upto(a, n) <= pop_upto(b, n),
        (exists|i: u16| i < n && #[trigger] bit(b, i) && !bit(a, i)) ==> pop_upto(a, n) < pop_upto(
            b,
            n,
        ),
    decreases n,
{
    if n > 0 {
        lemma_pop_upto_subset(a, b, (n - 1) as nat);
        if exists|i: u16| i < n && #[trigger] bit(b, i) && !bit(a, i) {
            let i = choose|i: u16| i < n && #[trigger] bit(b, i) && !bit(a, i);
            if i < n - 1 {
                assert(exists|i: u16| i < (n - 1) as nat && #[trigger] bit(b, i) && !bit(a, i));
            }
        }
    }
}

/// With at least one bit among the lowest `n`, the first one lies below `n` and is set.
pub proof fn lemma_first_bit(m: u16, i: nat)
    requires
        i <= 9,
        exists|j: u16| i <= j < 9 && #[trigger] bit(m, j),
    ensures
        i <= first_bit_from(m, i) < 9,
        bit(m, first_bit_from(m, i) as u16),
        forall|j: u16| i <= j < first_bit_from(m, i) ==> !#[trigger] bit(m, j),
    decreases 9 - i,
{
    if i < 9 && !bit(m, i as u16) {
        let j = choose|j: u16| i <= j < 9 && #[trigger] bit(m, j);
        assert(j != i);
        lemma_first_bit(m, i + 1);
    }
}

/// A word with some set digit bit counts at least one.
pub proof fn lemma_pop_positive(m: u16, n: nat)
    requires
        n <= 16,
    ensures
        (exists|j: u16| j < n && #[trigger] bit(m, j)) <==> pop_upto(m, n) > 0,
    decreases n,
{
    if n > 0 {
        lemma_pop_positive(m, (n - 1) as nat);
        if exists|j: u16| j < n && #[trigger] bit(m, j) {
            let j = choose|j: u16| j < n && #[trigger] bit(m, j);
            if j < n - 1 {
                assert(exists|j: u16| j < (n - 1) as nat && #[trigger] bit(m, j));
            }
        }
        if pop_upto(m, (n - 1) as nat) > 0 {
            let j = choose|j: u16| j < (n - 1) as nat && #[trigger] bit(m, j);
            assert(j < n && bit(m, j));
        }
        if bit(m, (n - 1) as u16) {
            assert(((n - 1) as u16) < n);
        }
    }
}

/// A word with exactly one digit bit has no other digit bit than its first.
pub proof fn lemma_pop_one(m: u16, n: nat)
    requires
        n <= 9,
        pop_upto(m, n) == 1,
    ensures
        first_bit_from(m, 0) < n,
        forall|j: u16| j < n && j != first_bit_from(m, 0) ==> !#[trigger] bit(m, j),
    decreases n,
{
    lemma_pop_positive(m, n);
    let j0 = choose|j: u16| j < n && #[trigger] bit(m, j);
    lemma_first_bit(m, 0);
    if n > 0 {
        if bit(m, (n - 1) as u16) {
            assert(pop_upto(m, (n - 1) as nat) == 0);
            lemma_pop_positive(m, (n - 1) as nat);
            assert forall|j: u16| j < n && j != (n - 1) as u16 implies !#[trigger] bit(m, j) by {
                if bit(m, j) {
                    assert(j < (n - 1) as nat && bit(m, j));
                }
            }
            assert(first_bit_from(m, 0) == n - 1);
        } else {
            lemma_pop_one(m, (n - 1) as nat);
        }
    }
}

/// Setting a bit that was clear adds one to the count when it lies below `n`.
pub proof fn lemma_pop_add_bit(x: u16, b: u16, n: nat)
    requires
        b < 16,
        n <= 16,
        !bit(x, b),
    ensures
        pop_upto(x | (1u16 << b), n) == pop_upto(x, n) + if b < n {
            1nat
        } else {
            0nat
        },
    decreases n,
{
    lemma_bits_or(x, 1u16 << b);
    lemma_bits_single(b);
    if n > 0 {
        lemma_pop_add_bit(x, b, (n - 1) as nat);
        assert(bit(x | (1u16 << b), (n - 1) as u16) == (bit(x, (n - 1) as u16) || (n - 1) as u16 == b));
    }
}

/// Bits from `m` to `n` that are all clear do not count.
pub proof fn lemma_pop_clear_above(x: u16, m: nat, n: nat)
    requires
        m <= n <= 16,
        forall|i: u16| m <= i < n ==> !#[trigger] bit(x, i),
    ensures
        pop_upto(x, n) == pop_upto(x, m),
    decreases n,
{
    if n > m {
        assert(!bit(x, (n - 1) as u16));
        lemma_pop_clear_above(x, m, (n - 1) as nat);
    }
}

pub proof fn lemma_low_bits_set()
    ensures
        forall|i: u16| i < 9 ==> #[trigger] bit(0x1ffu16, i),
{
    assert(forall|i: u16| i < 9 ==> #[trigger] bit(0x1ffu16, i)) by (bit_vector);
}

/// Number of digit bits of `m`.
pub fn count_digits(m: u16) -> (r: u32)
    ensures
        r == pop9(m),
        r <= 9,
{
    let mut r: u32 = 0;
    let mut i: u16 = 0;
    while i < 9
        invariant
            i <= 9,
            r == pop_upto(m, i as nat),
            r <= i,
        decreases 9 - i,
    {
        if (m >> i) & 1 == 1 {
            r = r + 1;
        }
        i = i + 1;
    }
    r
}

/// Index of the lowest digit bit of `m` (9 if there is none).
pub fn first_digit_bit(m: u16) -> (r: u16)
    ensures
        r == first_bit_from(m, 0),
{
    let mut i: u16 = 0;
    while i < 9
        invariant
            i <= 9,
            first_bit_from(m, 0) == first_bit_from(m, i as nat),
        decreases 9 - i,
    {
        if (m >> i) & 1 == 1 {
            return i;
        }
        i = i + 1;
    }
    9
}

/// Number of set bits among the lowest `n` bits of `m`.
pub fn count_bits(m: u16, n: u16) -> (r: u32)
    requires
        n <= 16,
    ensures
        r == pop_upto(m, n as nat),
        r <= n,
{
    let mut r: u32 = 0;
    let mut i: u16 = 0;
    while i < n
        invariant
            i <= n <= 16,
            r == pop_upto(m, i as nat),
            r <= i,
        decreases n - i,
    {
        if (m >> i) & 1 == 1 {
            r = r + 1;
        }
        i = i + 1;
    }
    r
}

/// The digit (1-based bit index) of a word with exactly one set bit.
pub fn get_single_digit(value: u16) -> (r: Option<u16>)
    ensures
        (r is Some) == (pop_upto(value, 16) == 1),
        r is Some ==> 1 <= r->Some_0 <= 16 && bit(value, (r->Some_0 - 1) as u16),
{
    if count_bits(value, 16) != 1 {
        return None;
    }
    proof {
        lemma_pop_positive(value, 16);
    }
    let mut i: u16 = 0;
    while i < 16
        invariant
            i <= 16,
            pop_upto(value, 16) == 1,
            forall|j: u16| j < i ==> !#[trigger] bit(value, j),
        decreases 16 - i,
    {
        if (value >> i) & 1 == 1 {
            return Some(i + 1);
        }
        i = i + 1;
    }
    proof {
        let j = choose|j: u16| j < 16 && #[trigger] bit(value, j);
    }
    None
}

impl Mask {
    /// All nine digits.
    pub fn all() -> (r: Mask)
        ensures
            r.0 == 0x1ff,
            forall|d: int| #[trigger] mask_has(r, d) == (1 <= d <= 9),
    {
        assert(forall|i: u16| i < 9 ==> #[trigger] bit(0x1ffu16, i)) by (bit_vector);
        Mask(0x1ff)
    }

    /// Sets (`true`) or clears (`false`) bit `index`.
    pub fn set(&mut self, index: usize, value: bool)
        requires
            index < 16,
        ensures
            bit(final(self).0, index as u16) == value,
            forall|i: u16| i < 16 && i != index ==> #[trigger] bit(final(self).0, i) == bit(old(self).0, i),
    {
        let ghost before = self.0;
        proof {
            lemma_bits_single(index as u16);
            lemma_bits_or(before, 1u16 << (index as u16));
            lemma_bits_and(before, !(1u16 << (index as u16)));
            lemma_bits_not(1u16 << (index as u16));
        }
        if value {
            self.0 = self.0 | (1u16 << (index as u16));
        } else {
            self.0 = self.0 & !(1u16 << (index as u16));
        }
    }

    /// Whether digit `d` belongs to the mask.
    pub fn has_digit(&self, d: u8) -> (r: bool)
        requires
            1 <= d <= 9,
        ensures
            r == mask_has(*self, d as int),
    {
        (self.0 >> ((d - 1) as u16)) & 1 == 1
    }

    /// The mask without digit `d`.
    pub fn without(&self, d: u8) -> (r: Mask)
        requires
            1 <= d <= 9,
        ensures
            r.0 == self.0 & !(1u16 << ((d - 1) as u16)),
            forall|e: int| #[trigger] mask_has(r, e) == (mask_has(*self, e) && e != d),
            mask_wf(*self) ==> mask_wf(r),
    {
        let r = Mask(self.0 & !(1u16 << ((d - 1) as u16)));
        proof {
            lemma_bits_and(self.0, !(1u16 << ((d - 1) as u16)));
            lemma_bits_not(1u16 << ((d - 1) as u16));
            lemma_bits_single((d - 1) as u16);
            if mask_wf(*self) {
                lemma_and_low(self.0, !(1u16 << ((d - 1) as u16)));
            }
            assert forall|e: int| #[trigger] mask_has(r, e) == (mask_has(*self, e) && e != d) by {
                if 1 <= e <= 9 {
                    assert(bit(r.0, (e - 1) as u16) == (bit(self.0, (e - 1) as u16) && (e - 1) as u16
                        != (d - 1) as u16));
                }
            }
        }
        r
    }

    /// Digits common to both masks.
    pub fn intersect(&self, other: &Mask) -> (r: Mask)
        ensures
            r.0 == self.0 & other.0,
            forall|e: int| #[trigger] mask_has(r, e) == (mask_has(*self, e) && mask_has(*other, e)),
            mask_wf(*self) ==> mask_wf(r),
    {
        let r = Mask(self.0 & other.0);
        proof {
            lemma_bits_and(self.0, other.0);
            if mask_wf(*self) {
                lemma_and_low(self.0, other.0);
            }
            assert forall|e: int| #[trigger]
                mask_has(r, e) == (mask_has(*self, e) && mask_has(*other, e)) by {
                if 1 <= e <= 9 {
                    assert(bit(r.0, (e - 1) as u16) == (bit(self.0, (e - 1) as u16) && bit(
                        other.0,
                        (e - 1) as u16,
                    )));
                }
            }
        }
        r
    }

    /// Number of digits in the mask.
    pub fn len(&self) -> (r: u32)
        ensures
            r == mask_len(*self),
            r <= 9,
    {
        count_digits(self.0)
    }

    /// The code of a candidate cell with this mask: the pencil flag over the digit bits.
    pub fn code(&self) -> (r: u16)
        ensures
            r == (0x8000u16 | (self.0 & 0x1ffu16)),
    {
        0x8000u16 | (self.0 & 0x1ff)
    }
}

} // verus!
