use vstd::prelude::*;

verus! {

/// Two digits.
pub type Pair = [u16; 2];

/// Smallest first digit of a pair of distinct digits 1..=9 summing to `s`.
pub open spec fn pair_low(s: int) -> int {
    if s - 9 > 1 {
        s - 9
    } else {
        1
    }
}

/// Number of pairs `a < b` of digits 1..=9 with `a + b == s`.
pub open spec fn pair_count(s: int) -> int {
    (s - 1) / 2 - pair_low(s) + 1
}

/// For each sum from 4 to 17, the pairs of distinct digits with that sum,
/// smaller digit first, in increasing order of the smaller digit.
pub fn pair_sums() -> (r: Vec<Vec<Pair>>)
    ensures
        r.len() == 14,
        forall|i: int|
            0 <= i < 14 ==> {
                let s = i + 4;
                &&& (#[trigger] r@[i]).len() == pair_count(s)
                &&& forall|k: int|
                    0 <= k < pair_count(s) ==> (#[trigger] r@[i]@[k])@[0] == pair_low(s) + k
                        && r@[i]@[k]@[1] == s - pair_low(s) - k
            },
{
    let mut r: Vec<Vec<Pair>> = Vec::new();
    let mut s: u16 = 4;
    while s <= 17
        invariant
            4 <= s <= 18,
            r.len() == s - 4,
            forall|i: int|
                0 <= i < r.len() ==> {
                    let t = i + 4;
                    &&& (#[trigger] r@[i]).len() == pair_count(t)
                    &&& forall|k: int|
                        0 <= k < pair_count(t) ==> (#[trigger] r@[i]@[k])@[0] == pair_low(t) + k
                            && r@[i]@[k]@[1] == t - pair_low(t) - k
                },
        decreases 18 - s,
    {
        let lo: u16 = if s > 10 {
            s - 9
        } else {
            1
        };
        let hi: u16 = (s - 1) / 2;
        let mut row: Vec<Pair> = Vec::new();
        let mut a: u16 = lo;
        while a <= hi
            invariant
                4 <= s <= 17,
                lo == pair_low(s as int),
                hi == (s - 1) / 2,
                lo <= a <= hi + 1,
                row.len() == a - lo,
                forall|k: int|
                    0 <= k < row.len() ==> (#[trigger] row@[k])@[0] == lo + k && row@[k]@[1] == s
                        - lo - k,
            decreases hi + 1 - a,
        {
            row.push([a, s - a]);
            a = a + 1;
        }
        r.push(row);
        s = s + 1;
    }
    r
}

/// Three digits.
pub type Triplet = [u16; 3];

/// One triplet for each of three corners.
pub type CornerTriplets = [Triplet; 3];

/// Three strictly increasing digits 1..=9.
pub open spec fn ascending(t: Triplet) -> bool {
    1 <= t@[0] < t@[1] < t@[2] <= 9
}

/// The triplet lists, by sum from 6 to 18.
pub open spec fn triplet_table() -> Seq<Seq<Triplet>> {
    seq![
        seq![[1u16, 2u16, 3u16]],
        seq![[1u16, 2u16, 4u16]],
        seq![[1u16, 2u16, 5u16], [1u16, 3u16, 4u16]],
        seq![[1u16, 2u16, 6u16], [1u16, 3u16, 5u16], [2u16, 3u16, 4u16]],
        seq![[1u16, 2u16, 7u16], [1u16, 3u16, 6u16], [1u16, 4u16, 5u16], [2u16, 3u16, 5u16]],
        seq![[1u16, 2u16, 8u16], [1u16, 3u16, 7u16], [1u16, 4u16, 6u16], [2u16, 3u16, 6u16], [2u16, 4u16, 5u16]],
        seq![[1u16, 2u16, 9u16], [1u16, 3u16, 8u16], [1u16, 4u16, 7u16], [1u16, 5u16, 6u16], [2u16, 3u16, 7u16], [2u16, 4u16, 6u16], [3u16, 4u16, 5u16]],
        seq![[1u16, 3u16, 9u16], [1u16, 4u16, 8u16], [1u16, 5u16, 7u16], [2u16, 3u16, 8u16], [2u16, 4u16, 7u16], [2u16, 5u16, 6u16], [3u16, 4u16, 6u16]],
        seq![[1u16, 4u16, 9u16], [1u16, 5u16, 8u16], [1u16, 6u16, 7u16], [2u16, 3u16, 9u16], [2u16, 4u16, 8u16], [2u16, 5u16, 7u16], [3u16, 4u16, 7u16], [3u16, 5u16, 6u16]],
        seq![[1u16, 5u16, 9u16], [1u16, 6u16, 8u16], [2u16, 4u16, 9u16], [2u16, 5u16, 8u16], [2u16, 6u16, 7u16], [3u16, 4u16, 8u16], [3u16, 5u16, 7u16], [4u16, 5u16, 6u16]],
        seq![[1u16, 6u16, 9u16], [1u16, 7u16, 8u16], [2u16, 5u16, 9u16], [2u16, 6u16, 8u16], [3u16, 4u16, 9u16], [3u16, 5u16, 8u16], [3u16, 6u16, 7u16], [4u16, 5u16, 7u16]],
        seq![[1u16, 7u16, 9u16], [2u16, 6u16, 9u16], [2u16, 7u16, 8u16], [3u16, 5u16, 9u16], [3u16, 6u16, 8u16], [4u16, 5u16, 9u16], [4u16, 6u16, 7u16]],
        seq![[1u16, 8u16, 9u16], [2u16, 7u16, 9u16], [3u16, 6u16, 9u16], [3u16, 7u16, 8u16], [4u16, 5u16, 8u16], [4u16, 6u16, 7u16]],
    ]
}

/// Triplets of distinct digits listed by their sum, from 6 upwards: thirteen
/// lists, each triplet in increasing order; the lists for the sums 6 to 16
/// hold only triplets with that sum. The lists are exactly `triplet_table()`.
pub fn triplet_sums() -> (r: Vec<Vec<Triplet>>)
    ensures
        r.len() == 13,
        forall|i: int| 0 <= i < 13 ==> (#[trigger] r@[i])@ == triplet_table()[i],
        forall|i: int, k: int| 0 <= i < 13 && 0 <= k < r@[i].len() ==> ascending(#[trigger] r@[i]@[k]),
        forall|i: int, k: int|
            0 <= i < 11 && 0 <= k < r@[i].len() ==> (#[trigger] r@[i]@[k])@[0] + r@[i]@[k]@[1]
                + r@[i]@[k]@[2] == i + 6,
{
    let r = vec![
        vec![[1, 2, 3]],
        vec![[1, 2, 4]],
        vec![[1, 2, 5], [1, 3, 4]],
        vec![[1, 2, 6], [1, 3, 5], [2, 3, 4]],
        vec![[1, 2, 7], [1, 3, 6], [1, 4, 5], [2, 3, 5]],
        vec![[1, 2, 8], [1, 3, 7], [1, 4, 6], [2, 3, 6], [2, 4, 5]],
        vec![[1, 2, 9], [1, 3, 8], [1, 4, 7], [1, 5, 6], [2, 3, 7], [2, 4, 6], [3, 4, 5]],
        vec![[1, 3, 9], [1, 4, 8], [1, 5, 7], [2, 3, 8], [2, 4, 7], [2, 5, 6], [3, 4, 6]],
        vec![[1, 4, 9], [1, 5, 8], [1, 6, 7], [2, 3, 9], [2, 4, 8], [2, 5, 7], [3, 4, 7], [3, 5, 6]],
        vec![[1, 5, 9], [1, 6, 8], [2, 4, 9], [2, 5, 8], [2, 6, 7], [3, 4, 8], [3, 5, 7], [4, 5, 6]],
        vec![[1, 6, 9], [1, 7, 8], [2, 5, 9], [2, 6, 8], [3, 4, 9], [3, 5, 8], [3, 6, 7], [4, 5, 7]],
        vec![[1, 7, 9], [2, 6, 9], [2, 7, 8], [3, 5, 9], [3, 6, 8], [4, 5, 9], [4, 6, 7]],
        vec![[1, 8, 9], [2, 7, 9], [3, 6, 9], [3, 7, 8], [4, 5, 8], [4, 6, 7]],
    ];
    r
}

/// Whether `n` is one of the three sums of `key`.
pub open spec fn in_key(key: Triplet, n: int) -> bool {
    n == key@[0] || n == key@[1] || n == key@[2]
}

/// The `count` largest numbers from `n` down to 0 that are not in `key`, largest first.
pub open spec fn descending_outside(key: Triplet, n: int, count: nat) -> Seq<u16>
    decreases n + 1, count,
{
    if count == 0 || n < 0 {
        seq![]
    } else if in_key(key, n) {
        descending_outside(key, n - 1, count)
    } else {
        seq![n as u16] + descending_outside(key, n - 1, (count - 1) as nat)
    }
}

/// How many different values of `key` are at most `n`.
pub open spec fn keys_at_most(key: Triplet, n: int) -> int {
    (if key@[0] <= n { 1int } else { 0int }) + (if key@[1] <= n && key@[1] != key@[0] {
        1int
    } else {
        0int
    }) + (if key@[2] <= n && key@[2] != key@[0] && key@[2] != key@[1] {
        1int
    } else {
        0int
    })
}

/// The sums of the twelve pairs that go with the corner sums `key`: the twelve
/// largest numbers up to 17 that are not in `key`, in increasing order.
pub fn pairs_sequence(key: Triplet) -> (r: [u16; 12])
    ensures
        r@ == descending_outside(key, 17, 12).reverse(),
{
    let ghost full = descending_outside(key, 17, 12);
    let mut found: Vec<u16> = Vec::new();
    let mut n: u16 = 17;
    while found.len() < 12
        invariant
            found.len() <= 12,
            n <= 17,
            n + 1 >= (12 - found.len()) + keys_at_most(key, n as int),
            found@ + descending_outside(key, n as int, (12 - found.len()) as nat) == full,
        decreases n + (12 - found.len()),
    {
        let ghost rest = descending_outside(key, n as int, (12 - found.len()) as nat);
        let ghost before = found@;
        if n == key[0] || n == key[1] || n == key[2] {
            assert(rest == descending_outside(key, n - 1, (12 - found.len()) as nat));
            assert(keys_at_most(key, n - 1) == keys_at_most(key, n as int) - 1);
            n = n - 1;
        } else {
            found.push(n);
            assert(rest == seq![n] + descending_outside(key, n - 1, (12 - before.len() - 1) as nat));
            assert(keys_at_most(key, n - 1) == keys_at_most(key, n as int));
            if found.len() < 12 {
                assert(before + rest =~= found@ + descending_outside(key, n - 1, (12 - found.len()) as nat));
                n = n - 1;
            } else {
                assert(descending_outside(key, n - 1, 0) =~= Seq::<u16>::empty());
                assert(descending_outside(key, n as int, 0) =~= Seq::<u16>::empty());
                assert(before + rest =~= found@ + descending_outside(key, n as int, 0));
            }
        }
    }
    assert(descending_outside(key, n as int, 0) =~= Seq::<u16>::empty());
    assert(found@ =~= full);
    let mut r: [u16; 12] = [0; 12];
    let mut i: usize = 0;
    while i < 12
        invariant
            i <= 12,
            found@ == full,
            full.len() == 12,
            forall|j: int| 0 <= j < i ==> r@[j] == full.reverse()[j],
        decreases 12 - i,
    {
        r[i] = found[11 - i];
        i = i + 1;
    }
    assert(r@ =~= full.reverse());
    r
}

/// The nine digits of three triplets, in order.
pub open spec fn nine_digits(t1: Triplet, t2: Triplet, t3: Triplet) -> Seq<u16> {
    seq![t1@[0], t1@[1], t1@[2], t2@[0], t2@[1], t2@[2], t3@[0], t3@[1], t3@[2]]
}

/// The nine digits of three triplets are all different.
pub open spec fn disjoint_triplets(t1: Triplet, t2: Triplet, t3: Triplet) -> bool {
    forall|i: int, j: int|
        0 <= i < 9 && 0 <= j < 9 && i != j ==> #[trigger] nine_digits(t1, t2, t3)[i] != #[trigger] nine_digits(
            t1,
            t2,
            t3,
        )[j]
}

/// For `t1` and `t2`, the triplets of `s3` from index `k` on that together with
/// them use nine different digits, in order.
pub open spec fn unique_with(t1: Triplet, t2: Triplet, s3: Seq<Triplet>, k: nat) -> Seq<[Triplet; 3]>
    decreases s3.len() - k,
{
    if k >= s3.len() {
        seq![]
    } else if disjoint_triplets(t1, t2, s3[k as int]) {
        seq![[t1, t2, s3[k as int]]] + unique_with(t1, t2, s3, k + 1)
    } else {
        unique_with(t1, t2, s3, k + 1)
    }
}

/// For `t1`, the disjoint choices with the triplets of `s2` from index `j` on.
pub open spec fn unique_from(t1: Triplet, s2: Seq<Triplet>, s3: Seq<Triplet>, j: nat) -> Seq<[Triplet; 3]>
    decreases s2.len() - j,
{
    if j >= s2.len() {
        seq![]
    } else {
        unique_with(t1, s2[j as int], s3, 0) + unique_from(t1, s2, s3, j + 1)
    }
}

/// The disjoint choices with the triplets of `s1` from index `i` on.
pub open spec fn unique_all(s1: Seq<Triplet>, s2: Seq<Triplet>, s3: Seq<Triplet>, i: nat) -> Seq<[Triplet; 3]>
    decreases s1.len() - i,
{
    if i >= s1.len() {
        seq![]
    } else {
        unique_from(s1[i as int], s2, s3, 0) + unique_all(s1, s2, s3, i + 1)
    }
}

/// Whether three triplets use nine different digits.
pub fn triplets_disjoint(t1: Triplet, t2: Triplet, t3: Triplet) -> (r: bool)
    ensures
        r == disjoint_triplets(t1, t2, t3),
{
    let digits: [u16; 9] = [t1[0], t1[1], t1[2], t2[0], t2[1], t2[2], t3[0], t3[1], t3[2]];
    let ghost d = nine_digits(t1, t2, t3);
    assert(digits@ =~= d);
    let mut i: usize = 0;
    while i < 9
        invariant
            i <= 9,
            digits@ == d,
            d == nine_digits(t1, t2, t3),
            forall|a: int, b: int| 0 <= a < i && 0 <= b < 9 && a != b ==> d[a] != d[b],
        decreases 9 - i,
    {
        let mut j: usize = 0;
        while j < 9
            invariant
                i < 9,
                j <= 9,
                digits@ == d,
                d == nine_digits(t1, t2, t3),
                forall|a: int, b: int| 0 <= a < i && 0 <= b < 9 && a != b ==> d[a] != d[b],
                forall|b: int| 0 <= b < j && b != i ==> d[i as int] != d[b],
            decreases 9 - j,
        {
            let di = digits[i];
            let dj = digits[j];
            if i != j && di == dj {
                assert(di == d[i as int] && dj == d[j as int]);
                assert(nine_digits(t1, t2, t3)[i as int] == nine_digits(t1, t2, t3)[j as int]);
                assert(!disjoint_triplets(t1, t2, t3));
                return false;
            }
            j = j + 1;
        }
        i = i + 1;
    }
    true
}

/// Every choice of one triplet from each list whose nine digits are all
/// different, in order of the first list, then the second, then the third.
pub fn find_unique_triplets(s1: &Vec<Triplet>, s2: &Vec<Triplet>, s3: &Vec<Triplet>) -> (r: Vec<CornerTriplets>)
    ensures
        r@ == unique_all(s1@, s2@, s3@, 0),
{
    let mut res: Vec<[Triplet; 3]> = Vec::new();
    let mut i: usize = 0;
    while i < s1.len()
        invariant
            i <= s1.len(),
            res@ + unique_all(s1@, s2@, s3@, i as nat) == unique_all(s1@, s2@, s3@, 0),
        decreases s1.len() - i,
    {
        let t1 = s1[i];
        let mut j: usize = 0;
        let ghost res_i = res@;
        assert(unique_all(s1@, s2@, s3@, i as nat) == unique_from(t1, s2@, s3@, 0) + unique_all(s1@, s2@, s3@, (i + 1) as nat));
        while j < s2.len()
            invariant
                i < s1.len(),
                j <= s2.len(),
                t1 == s1@[i as int],
                res_i + unique_all(s1@, s2@, s3@, i as nat) == unique_all(s1@, s2@, s3@, 0),
                unique_all(s1@, s2@, s3@, i as nat) == unique_from(t1, s2@, s3@, 0) + unique_all(s1@, s2@, s3@, (i + 1) as nat),
                res@ + unique_from(t1, s2@, s3@, j as nat) == res_i + unique_from(t1, s2@, s3@, 0),
            decreases s2.len() - j,
        {
            let t2 = s2[j];
            let ghost res_j = res@;
            let mut k: usize = 0;
            while k < s3.len()
                invariant
                    j < s2.len(),
                    k <= s3.len(),
                    t2 == s2@[j as int],
                    res@ + unique_with(t1, t2, s3@, k as nat) == res_j + unique_with(t1, t2, s3@, 0),
                decreases s3.len() - k,
            {
                let t3 = s3[k];
                let ghost before = res@;
                if triplets_disjoint(t1, t2, t3) {
                    res.push([t1, t2, t3]);
                    assert(before + unique_with(t1, t2, s3@, k as nat) =~= res@ + unique_with(t1, t2, s3@, (k + 1) as nat));
                }
                k = k + 1;
            }
            assert(res@ =~= res_j + unique_with(t1, t2, s3@, 0));
            assert(res_j + unique_from(t1, s2@, s3@, j as nat) =~= res@ + unique_from(t1, s2@, s3@, (j + 1) as nat));
            j = j + 1;
        }
        assert(res@ =~= res_i + unique_from(t1, s2@, s3@, 0));
        assert(res_i + unique_all(s1@, s2@, s3@, i as nat) =~= res@ + unique_all(s1@, s2@, s3@, (i + 1) as nat));
        i = i + 1;
    }
    assert(res@ =~= res@ + unique_all(s1@, s2@, s3@, i as nat));
    res
}

} // verus!
