use vstd::prelude::*;

use crate::mask::{bit, count_bits, pop_upto};
use crate::sums::Pair;

verus! {

/// Both digits of every pair lie in 1..=9.
pub open spec fn digits_ok(pairs: Seq<Pair>) -> bool {
    forall|k: int| 0 <= k < pairs.len() ==> 1 <= (#[trigger] pairs[k])@[0] <= 9 && 1 <= pairs[k]@[1] <= 9
}

/// Occurrences of digit `d` among the first `n` pairs.
pub open spec fn count_upto(pairs: Seq<Pair>, d: int, n: nat) -> nat
    decreases n,
{
    if n == 0 {
        0
    } else {
        count_upto(pairs, d, (n - 1) as nat) + (if pairs[n - 1]@[0] == d {
            1nat
        } else {
            0nat
        }) + (if pairs[n - 1]@[1] == d {
            1nat
        } else {
            0nat
        })
    }
}

/// Occurrences of digit `d` in the pairs.
pub open spec fn digit_count(pairs: Seq<Pair>, d: int) -> nat {
    count_upto(pairs, d, pairs.len())
}

/// How many of the digits 1..=n occur exactly `c` times.
pub open spec fn digits_with_count(pairs: Seq<Pair>, c: nat, n: nat) -> nat
    decreases n,
{
    if n == 0 {
        0
    } else {
        digits_with_count(pairs, c, (n - 1) as nat) + if digit_count(pairs, n as int) == c {
            1nat
        } else {
            0nat
        }
    }
}

/// Sum of the digits among 1..=n that occur exactly `c` times.
pub open spec fn sum_with_count(pairs: Seq<Pair>, c: nat, n: nat) -> nat
    decreases n,
{
    if n == 0 {
        0
    } else {
        sum_with_count(pairs, c, (n - 1) as nat) + if digit_count(pairs, n as int) == c {
            n
        } else {
            0nat
        }
    }
}

/// Every digit occurs once or twice: three digits twice, six digits once.
pub open spec fn group_balanced(pairs: Seq<Pair>) -> bool {
    &&& forall|d: int| 1 <= d <= 9 ==> #[trigger] digit_count(pairs, d) == 1 || digit_count(pairs, d) == 2
    &&& digits_with_count(pairs, 2, 9) == 3
    &&& digits_with_count(pairs, 1, 9) == 6
}

/// Every digit occurs twice or four times: six digits twice, and the digits
/// that occur four times sum to 15.
pub open spec fn frequency_ok(pairs: Seq<Pair>) -> bool {
    &&& forall|d: int| 1 <= d <= 9 ==> #[trigger] digit_count(pairs, d) == 2 || digit_count(pairs, d) == 4
    &&& digits_with_count(pairs, 2, 9) == 6
    &&& sum_with_count(pairs, 4, 9) == 15
}

/// Occurrences of each digit (index 0 for digit 1).
pub fn digit_counts(pairs: &Vec<Pair>) -> (r: [u32; 9])
    requires
        digits_ok(pairs@),
        pairs.len() <= 100,
    ensures
        forall|d: int| 0 <= d < 9 ==> #[trigger] r@[d] == digit_count(pairs@, d + 1),
{
    let mut r: [u32; 9] = [0; 9];
    let mut i: usize = 0;
    while i < pairs.len()
        invariant
            i <= pairs.len() <= 100,
            digits_ok(pairs@),
            forall|d: int| 0 <= d < 9 ==> #[trigger] r@[d] == count_upto(pairs@, d + 1, i as nat),
            forall|d: int| 0 <= d < 9 ==> r@[d] <= 2 * i,
        decreases pairs.len() - i,
    {
        let a = pairs[i][0];
        let b = pairs[i][1];
        let ghost before = r@;
        r[(a - 1) as usize] = r[(a - 1) as usize] + 1;
        r[(b - 1) as usize] = r[(b - 1) as usize] + 1;
        proof {
            assert forall|d: int| 0 <= d < 9 implies #[trigger] r@[d] == count_upto(pairs@, d + 1, (i + 1) as nat) by {
                assert(count_upto(pairs@, d + 1, (i + 1) as nat) == count_upto(pairs@, d + 1, i as nat)
                    + (if pairs@[i as int]@[0] == d + 1 { 1nat } else { 0nat })
                    + (if pairs@[i as int]@[1] == d + 1 { 1nat } else { 0nat }));
            }
        }
        i = i + 1;
    }
    r
}

/// Whether every digit occurs once or twice, three of them twice and six once.
pub fn check_group_constraint(pairs: &Vec<Pair>) -> (r: bool)
    requires
        digits_ok(pairs@),
        pairs.len() <= 100,
    ensures
        r == group_balanced(pairs@),
{
    let counts = digit_counts(pairs);
    let mut count_2: u32 = 0;
    let mut count_1: u32 = 0;
    let mut d: usize = 0;
    while d < 9
        invariant
            d <= 9,
            forall|e: int| 0 <= e < 9 ==> #[trigger] counts@[e] == digit_count(pairs@, e + 1),
            forall|e: int| 1 <= e <= d ==> #[trigger] digit_count(pairs@, e) == 1 || digit_count(pairs@, e) == 2,
            count_2 == digits_with_count(pairs@, 2, d as nat),
            count_1 == digits_with_count(pairs@, 1, d as nat),
            count_1 + count_2 == d,
        decreases 9 - d,
    {
        let c = counts[d];
        if c == 2 {
            count_2 = count_2 + 1;
        } else if c == 1 {
            count_1 = count_1 + 1;
        } else {
            assert(!(digit_count(pairs@, d + 1) == 1 || digit_count(pairs@, d + 1) == 2));
            return false;
        }
        d = d + 1;
    }
    count_2 == 3 && count_1 == 6
}

/// Whether every digit occurs twice or four times, six of them twice, and the
/// digits that occur four times sum to 15.
pub fn check_frequency_constraint(pairs: &Vec<Pair>) -> (r: bool)
    requires
        digits_ok(pairs@),
        pairs.len() <= 100,
    ensures
        r == frequency_ok(pairs@),
{
    let counts = digit_counts(pairs);
    let mut dup_sum: u32 = 0;
    let mut count_2: u32 = 0;
    let mut d: usize = 0;
    while d < 9
        invariant
            d <= 9,
            forall|e: int| 0 <= e < 9 ==> #[trigger] counts@[e] == digit_count(pairs@, e + 1),
            forall|e: int| 1 <= e <= d ==> #[trigger] digit_count(pairs@, e) == 2 || digit_count(pairs@, e) == 4,
            count_2 == digits_with_count(pairs@, 2, d as nat),
            dup_sum == sum_with_count(pairs@, 4, d as nat),
            count_2 <= d,
            dup_sum <= 10 * d,
        decreases 9 - d,
    {
        let c = counts[d];
        if c == 4 {
            dup_sum = dup_sum + (d as u32) + 1;
        } else if c == 2 {
            count_2 = count_2 + 1;
        } else {
            assert(!(digit_count(pairs@, d + 1) == 2 || digit_count(pairs@, d + 1) == 4));
            return false;
        }
        d = d + 1;
    }
    count_2 == 6 && dup_sum == 15
}

/// The pairs at the indices below `n` whose bit in `mask` equals `want`, in order.
pub open spec fn picked_pairs(pairs: Seq<Pair>, mask: u16, n: nat, want: bool) -> Seq<Pair>
    decreases n,
{
    if n == 0 {
        seq![]
    } else if bit(mask, (n - 1) as u16) == want {
        picked_pairs(pairs, mask, (n - 1) as nat, want).push(pairs[n - 1])
    } else {
        picked_pairs(pairs, mask, (n - 1) as nat, want)
    }
}

/// The twelve pairs rearranged: those that `mask` picks, then the others.
pub open spec fn arrangement(pairs: Seq<Pair>, mask: u16) -> Seq<Pair> {
    picked_pairs(pairs, mask, 12, true) + picked_pairs(pairs, mask, 12, false)
}

/// `mask` picks six of the twelve pairs, the first among them, and both halves
/// are balanced.
pub open spec fn is_even_split(pairs: Seq<Pair>, mask: u16) -> bool {
    &&& pop_upto(mask, 12) == 6
    &&& bit(mask, 0)
    &&& group_balanced(picked_pairs(pairs, mask, 12, true))
    &&& group_balanced(picked_pairs(pairs, mask, 12, false))
}

/// The arrangements of the even splits among the masks below `m`, in order.
pub open spec fn splits_upto(pairs: Seq<Pair>, m: nat) -> Seq<Seq<Pair>>
    decreases m,
{
    if m == 0 {
        seq![]
    } else if is_even_split(pairs, (m - 1) as u16) {
        splits_upto(pairs, (m - 1) as nat).push(arrangement(pairs, (m - 1) as u16))
    } else {
        splits_upto(pairs, (m - 1) as nat)
    }
}

/// The views of a list of arrangements.
pub open spec fn arrangements(v: Seq<[Pair; 12]>) -> Seq<Seq<Pair>> {
    v.map_values(|a: [Pair; 12]| a@)
}

/// The pairs whose bit in `mask` equals `want`, in order.
pub fn pick_pairs(pairs: &[Pair; 12], mask: u16, want: bool) -> (r: Vec<Pair>)
    ensures
        r@ == picked_pairs(pairs@, mask, 12, want),
{
    let mut r: Vec<Pair> = Vec::new();
    let mut i: usize = 0;
    while i < 12
        invariant
            i <= 12,
            r@ == picked_pairs(pairs@, mask, i as nat, want),
        decreases 12 - i,
    {
        if (((mask >> (i as u16)) & 1) == 1) == want {
            r.push(pairs[i]);
        }
        i = i + 1;
    }
    r
}

proof fn lemma_picked_len(pairs: Seq<Pair>, mask: u16, n: nat)
    requires
        n <= 16,
    ensures
        picked_pairs(pairs, mask, n, true).len() == pop_upto(mask, n),
        picked_pairs(pairs, mask, n, false).len() + pop_upto(mask, n) == n,
    decreases n,
{
    if n > 0 {
        lemma_picked_len(pairs, mask, (n - 1) as nat);
    }
}

proof fn lemma_picked_digits(pairs: Seq<Pair>, mask: u16, n: nat, want: bool)
    requires
        n <= pairs.len(),
        digits_ok(pairs),
    ensures
        digits_ok(picked_pairs(pairs, mask, n, want)),
    decreases n,
{
    if n > 0 {
        lemma_picked_digits(pairs, mask, (n - 1) as nat, want);
    }
}

/// All ways to split the twelve pairs into two groups of six in which every
/// digit occurs once or twice (three digits twice): each as the first group
/// followed by the second, the first group always holding the first pair, in
/// increasing order of the set of indices that the first group takes.
pub fn split_pairs_evenly(pairs: [Pair; 12]) -> (r: Vec<[Pair; 12]>)
    requires
        digits_ok(pairs@),
    ensures
        arrangements(r@) == splits_upto(pairs@, 4096),
{
    let mut results: Vec<[Pair; 12]> = Vec::new();
    let mut mask: u16 = 0;
    while mask < 4096
        invariant
            mask <= 4096,
            digits_ok(pairs@),
            arrangements(results@) == splits_upto(pairs@, mask as nat),
        decreases 4096 - mask,
    {
        if count_bits(mask, 12) == 6 && (mask & 1) == 1 {
            proof {
                assert((mask & 1u16) == 1u16 ==> bit(mask, 0)) by (bit_vector);
                lemma_picked_len(pairs@, mask, 12);
                lemma_picked_digits(pairs@, mask, 12, true);
                lemma_picked_digits(pairs@, mask, 12, false);
            }
            let group1 = pick_pairs(&pairs, mask, true);
            let group2 = pick_pairs(&pairs, mask, false);
            if check_group_constraint(&group1) && check_group_constraint(&group2) {
                let mut res: [Pair; 12] = [[0, 0]; 12];
                let mut i: usize = 0;
                while i < 12
                    invariant
                        i <= 12,
                        group1.len() == 6,
                        group2.len() == 6,
                        forall|j: int| 0 <= j < i ==> res@[j] == (group1@ + group2@)[j],
                    decreases 12 - i,
                {
                    if i < 6 {
                        res[i] = group1[i];
                    } else {
                        res[i] = group2[i - 6];
                    }
                    i = i + 1;
                }
                assert(res@ =~= arrangement(pairs@, mask));
                results.push(res);
                proof {
                    assert(arrangements(results@) =~= splits_upto(pairs@, mask as nat).push(arrangement(pairs@, mask)));
                }
            } else {
                assert(!is_even_split(pairs@, mask));
            }
        } else {
            assert(!((mask & 1u16) == 1u16) ==> !bit(mask, 0)) by (bit_vector);
            assert(!is_even_split(pairs@, mask));
        }
        mask = mask + 1;
    }
    results
}

/// Each entry of the sequence names a sum that the table lists, and every
/// listed pair is made of digits 1..=9.
pub open spec fn sums_ok(sums: Seq<Vec<Pair>>, sequence: Seq<u16>) -> bool {
    &&& sequence.len() == 12
    &&& forall|i: int| 0 <= i < 12 ==> 4 <= #[trigger] sequence[i] && sequence[i] - 4 < sums.len()
    &&& forall|j: int| 0 <= j < sums.len() ==> digits_ok(#[trigger] sums[j]@)
}

/// The pairs listed for the sum of sequence entry `i`.
pub open spec fn choices(sums: Seq<Vec<Pair>>, sequence: Seq<u16>, i: int) -> Seq<Pair> {
    sums[sequence[i] - 4]@
}

/// The completions of `prefix` (one pair chosen for each entry before `index`)
/// that take choice `k` or a later one at `index` and any choice after it, in
/// lexicographic order of the choices, kept when they pass the frequency test.
pub open spec fn completions(
    sums: Seq<Vec<Pair>>,
    sequence: Seq<u16>,
    index: nat,
    prefix: Seq<Pair>,
    k: nat,
) -> Seq<Seq<Pair>>
    decreases 12 - index, choices(sums, sequence, index as int).len() - k,
{
    if index >= 12 {
        if frequency_ok(prefix) {
            seq![prefix]
        } else {
            seq![]
        }
    } else if k >= choices(sums, sequence, index as int).len() {
        seq![]
    } else {
        completions(
            sums,
            sequence,
            index + 1,
            prefix.push(choices(sums, sequence, index as int)[k as int]),
            0,
        ) + completions(sums, sequence, index, prefix, k + 1)
    }
}

/// The even splits of each selection, one selection after the other.
pub open spec fn split_all(sols: Seq<Seq<Pair>>) -> Seq<Seq<Pair>>
    decreases sols.len(),
{
    if sols.len() == 0 {
        seq![]
    } else {
        split_all(sols.drop_last()) + splits_upto(sols.last(), 4096)
    }
}

/// Every completion has twelve pairs of digits 1..=9.
pub proof fn lemma_completions_ok(
    sums: Seq<Vec<Pair>>,
    sequence: Seq<u16>,
    index: nat,
    prefix: Seq<Pair>,
    k: nat,
)
    requires
        sums_ok(sums, sequence),
        index <= 12,
        prefix.len() == index,
        digits_ok(prefix),
    ensures
        forall|x: int|
            0 <= x < completions(sums, sequence, index, prefix, k).len() ==> digits_ok(
                #[trigger] completions(sums, sequence, index, prefix, k)[x],
            ) && completions(sums, sequence, index, prefix, k)[x].len() == 12,
    decreases 12 - index, choices(sums, sequence, index as int).len() - k,
{
    if index < 12 && k < choices(sums, sequence, index as int).len() {
        let c = choices(sums, sequence, index as int)[k as int];
        let next = prefix.push(c);
        assert(digits_ok(sums[sequence[index as int] - 4]@));
        assert(digits_ok(next)) by {
            assert forall|j: int| 0 <= j < next.len() implies 1 <= (#[trigger] next[j])@[0] <= 9 && 1
                <= next[j]@[1] <= 9 by {
                if j < prefix.len() {
                    assert(next[j] == prefix[j]);
                }
            }
        }
        lemma_completions_ok(sums, sequence, index + 1, next, 0);
        lemma_completions_ok(sums, sequence, index, prefix, k + 1);
        let a = completions(sums, sequence, index + 1, next, 0);
        let b = completions(sums, sequence, index, prefix, k + 1);
        assert forall|x: int| 0 <= x < (a + b).len() implies digits_ok(#[trigger] (a + b)[x]) && (a
            + b)[x].len() == 12 by {
            if x < a.len() {
                assert((a + b)[x] == a[x]);
            } else {
                assert((a + b)[x] == b[x - a.len()]);
            }
        }
    }
}

/// A list of twelve pairs as an array.
pub fn to_array(v: &Vec<Pair>) -> (r: [Pair; 12])
    requires
        v.len() == 12,
    ensures
        r@ == v@,
{
    let mut r: [Pair; 12] = [[0, 0]; 12];
    let mut i: usize = 0;
    while i < 12
        invariant
            i <= 12,
            v.len() == 12,
            forall|j: int| 0 <= j < i ==> r@[j] == v@[j],
        decreases 12 - i,
    {
        r[i] = v[i];
        i = i + 1;
    }
    assert(r@ =~= v@);
    r
}

/// Appends to `all` every completion of `selected` (the pairs chosen for the
/// entries before `index`) that passes the frequency test.
pub fn find_all_valid_combinations(
    pair_sums: &[Vec<Pair>],
    sequence: &[u16; 12],
    index: usize,
    selected: &mut Vec<Pair>,
    all: &mut Vec<[Pair; 12]>,
)
    requires
        sums_ok(pair_sums@, sequence@),
        index <= 12,
        old(selected).len() == index,
        digits_ok(old(selected)@),
    ensures
        final(selected)@ == old(selected)@,
        arrangements(final(all)@) == arrangements(old(all)@) + completions(
            pair_sums@,
            sequence@,
            index as nat,
            old(selected)@,
            0,
        ),
    decreases 12 - index,
{
    let ghost sel0 = selected@;
    let ghost all0 = all@;
    if index == 12 {
        if check_frequency_constraint(selected) {
            let value = to_array(selected);
            all.push(value);
            assert(arrangements(all@) =~= arrangements(all0) + seq![sel0]);
        } else {
            assert(arrangements(all@) =~= arrangements(all0) + Seq::<Seq<Pair>>::empty());
        }
        return;
    }
    let s = (sequence[index] - 4) as usize;
    let ghost opts = choices(pair_sums@, sequence@, index as int);
    assert(opts == pair_sums@[s as int]@);
    assert(digits_ok(opts));
    assert(arrangements(all@) + completions(pair_sums@, sequence@, index as nat, sel0, 0)
        =~= arrangements(all0) + completions(pair_sums@, sequence@, index as nat, sel0, 0));
    let mut k: usize = 0;
    while k < pair_sums[s].len()
        invariant
            sums_ok(pair_sums@, sequence@),
            index < 12,
            s == sequence@[index as int] - 4,
            opts == pair_sums@[s as int]@,
            digits_ok(opts),
            digits_ok(sel0),
            sel0.len() == index,
            k <= opts.len(),
            selected@ == sel0,
            arrangements(all@) + completions(pair_sums@, sequence@, index as nat, sel0, k as nat)
                == arrangements(all0) + completions(pair_sums@, sequence@, index as nat, sel0, 0),
        decreases opts.len() - k,
    {
        let ghost before = arrangements(all@);
        let c = pair_sums[s][k];
        selected.push(c);
        proof {
            assert(digits_ok(selected@)) by {
                assert forall|j: int| 0 <= j < selected@.len() implies 1 <= (#[trigger] selected@[j])@[0]
                    <= 9 && 1 <= selected@[j]@[1] <= 9 by {
                    if j < sel0.len() {
                        assert(selected@[j] == sel0[j]);
                    } else {
                        assert(selected@[j] == opts[k as int]);
                    }
                }
            }
        }
        find_all_valid_combinations(pair_sums, sequence, index + 1, selected, all);
        selected.pop();
        proof {
            assert(selected@ =~= sel0);
            let head = completions(pair_sums@, sequence@, (index + 1) as nat, sel0.push(c), 0);
            let tail = completions(pair_sums@, sequence@, index as nat, sel0, (k + 1) as nat);
            assert(completions(pair_sums@, sequence@, index as nat, sel0, k as nat) == head + tail);
            assert(arrangements(all@) == before + head);
            assert((before + head) + tail =~= before + (head + tail));
        }
        k = k + 1;
    }
    assert(arrangements(all@) =~= arrangements(all@) + completions(pair_sums@, sequence@, index as nat, sel0, k as nat));
}

/// The even splits of every choice of one listed pair per sequence entry (the
/// pairs listed under `pair_sums[s - 4]` for entry `s`) that passes the
/// frequency test, in lexicographic order of the choices.
pub fn compute_combinations(sequence: &[u16; 12], pair_sums: &[Vec<Pair>]) -> (r: Vec<[Pair; 12]>)
    requires
        sums_ok(pair_sums@, sequence@),
    ensures
        arrangements(r@) == split_all(completions(pair_sums@, sequence@, 0, seq![], 0)),
{
    let mut all_solutions: Vec<[Pair; 12]> = Vec::new();
    let mut selected_pairs: Vec<Pair> = Vec::new();
    find_all_valid_combinations(pair_sums, sequence, 0, &mut selected_pairs, &mut all_solutions);
    let ghost sols = completions(pair_sums@, sequence@, 0, seq![], 0);
    proof {
        lemma_completions_ok(pair_sums@, sequence@, 0, seq![], 0);
        assert(arrangements(all_solutions@) =~= sols);
    }
    let mut results: Vec<[Pair; 12]> = Vec::new();
    let mut i: usize = 0;
    while i < all_solutions.len()
        invariant
            i <= all_solutions.len(),
            arrangements(all_solutions@) == sols,
            forall|x: int| 0 <= x < sols.len() ==> digits_ok(#[trigger] sols[x]) && sols[x].len() == 12,
            arrangements(results@) == split_all(sols.take(i as int)),
        decreases all_solutions.len() - i,
    {
        let ghost before = results@;
        assert(all_solutions@[i as int]@ == sols[i as int]);
        let mut splits = split_pairs_evenly(all_solutions[i]);
        results.append(&mut splits);
        proof {
            assert(sols.take(i + 1).drop_last() =~= sols.take(i as int));
            assert(arrangements(results@) =~= arrangements(before) + splits_upto(sols[i as int], 4096));
        }
        i = i + 1;
    }
    assert(sols.take(all_solutions.len() as int) =~= sols);
    results
}

} // verus!
