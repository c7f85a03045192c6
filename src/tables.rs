use vstd::prelude::*;

use indexmap::IndexMap;

use crate::sums::{
    descending_outside, find_unique_triplets, pairs_sequence, unique_all, CornerTriplets, Triplet,
};

verus! {

#[verifier::external_type_specification]
#[verifier::external_body]
#[verifier::reject_recursive_types(K)]
#[verifier::reject_recursive_types(V)]
#[verifier::reject_recursive_types(S)]
pub struct ExIndexMap<K, V, S>(IndexMap<K, V, S>);

/// The entries of a map from corner sums to corner triplets, in map order.
pub uninterp spec fn corner_entries(m: IndexMap<Triplet, Vec<CornerTriplets>>) -> Seq<(Triplet, Seq<CornerTriplets>)>;

/// The entries of a map from corner sums to pair sums, in map order.
pub uninterp spec fn sequence_entries(m: IndexMap<Triplet, [u16; 12]>) -> Seq<(Triplet, Seq<u16>)>;

/// The entries after inserting `value` under `key`: an existing key keeps its
/// place and takes the new value, a new key goes last.
pub open spec fn insert_entry<X>(entries: Seq<(Triplet, X)>, key: Triplet, value: X) -> Seq<(Triplet, X)> {
    if exists|i: int| 0 <= i < entries.len() && entries[i].0 == key {
        let i = choose|i: int| 0 <= i < entries.len() && entries[i].0 == key;
        entries.update(i, (key, value))
    } else {
        entries.push((key, value))
    }
}

/// The entries after inserting each of `kvs` in turn.
pub open spec fn inserted_all<X>(entries: Seq<(Triplet, X)>, kvs: Seq<(Triplet, X)>) -> Seq<(Triplet, X)>
    decreases kvs.len(),
{
    if kvs.len() == 0 {
        entries
    } else {
        insert_entry(inserted_all(entries, kvs.drop_last()), kvs.last().0, kvs.last().1)
    }
}

/// Relies on `IndexMap::new`: a new map has no entries.
#[verifier::external_body]
fn new_corner_map() -> (r: IndexMap<Triplet, Vec<CornerTriplets>>)
    ensures
        corner_entries(r) == Seq::<(Triplet, Seq<CornerTriplets>)>::empty(),
{
    IndexMap::new()
}

/// Relies on `IndexMap::insert`: an existing key keeps its place and takes the
/// new value, a new key goes last.
#[verifier::external_body]
fn insert_corners(m: &mut IndexMap<Triplet, Vec<CornerTriplets>>, key: Triplet, value: Vec<CornerTriplets>)
    ensures
        corner_entries(*final(m)) == insert_entry(corner_entries(*old(m)), key, value@),
{
    m.insert(key, value);
}

/// Relies on `IndexMap::len`: the number of entries.
#[verifier::external_body]
fn corner_count(m: &IndexMap<Triplet, Vec<CornerTriplets>>) -> (r: usize)
    ensures
        r == corner_entries(*m).len(),
{
    m.len()
}

/// Relies on `IndexMap::get_index`: the key of the entry at index `i`.
#[verifier::external_body]
fn corner_key(m: &IndexMap<Triplet, Vec<CornerTriplets>>, i: usize) -> (r: Triplet)
    requires
        i < corner_entries(*m).len(),
    ensures
        r == corner_entries(*m)[i as int].0,
{
    *m.get_index(i).unwrap().0
}

/// Relies on `IndexMap::new`: a new map has no entries.
#[verifier::external_body]
fn new_sequence_map() -> (r: IndexMap<Triplet, [u16; 12]>)
    ensures
        sequence_entries(r) == Seq::<(Triplet, Seq<u16>)>::empty(),
{
    IndexMap::new()
}

/// Relies on `IndexMap::insert`: an existing key keeps its place and takes the
/// new value, a new key goes last.
#[verifier::external_body]
fn insert_sequence(m: &mut IndexMap<Triplet, [u16; 12]>, key: Triplet, value: [u16; 12])
    ensures
        sequence_entries(*final(m)) == insert_entry(sequence_entries(*old(m)), key, value@),
{
    m.insert(key, value);
}

/// The lists of triplets, as sequences.
pub open spec fn triplet_lists(sums: Seq<Vec<Triplet>>) -> Seq<Seq<Triplet>> {
    sums.map_values(|v: Vec<Triplet>| v@)
}

/// For the corner sums `i + 6` and `j + 6` (with `i < j < 12`) and 18, the
/// disjoint choices of triplets with those sums, from pair `(i, j)` on in
/// lexicographic order; pairs without any choice are left out.
pub open spec fn corner_list(sums: Seq<Seq<Triplet>>, i: int, j: int) -> Seq<(Triplet, Seq<CornerTriplets>)>
    decreases 12 - i, 12 - j,
{
    if i >= 12 || i < 0 {
        seq![]
    } else if j >= 12 {
        corner_list(sums, i + 1, i + 2)
    } else {
        let t = unique_all(sums[i], sums[j], sums[12], 0);
        (if t.len() > 0 {
            seq![([(i + 6) as u16, (j + 6) as u16, 18u16], t)]
        } else {
            seq![]
        }) + corner_list(sums, i, j + 1)
    }
}

/// The map from each pair of smaller corner sums (with 18 as the third) to the
/// disjoint choices of triplets with those sums, for the pairs that have any.
pub fn get_triplet_map(triplet_sums: &[Vec<Triplet>]) -> (r: IndexMap<Triplet, Vec<CornerTriplets>>)
    requires
        triplet_sums.len() == 13,
    ensures
        corner_entries(r) == inserted_all(seq![], corner_list(triplet_lists(triplet_sums@), 0, 1)),
{
    let ghost sums = triplet_lists(triplet_sums@);
    let ghost all = corner_list(sums, 0, 1);
    let mut res = new_corner_map();
    let ghost mut done: Seq<(Triplet, Seq<CornerTriplets>)> = seq![];
    assert(done + all =~= all);
    let mut i: usize = 0;
    while i < 12
        invariant
            i <= 12,
            triplet_sums.len() == 13,
            sums == triplet_lists(triplet_sums@),
            all == corner_list(sums, 0, 1),
            done + corner_list(sums, i as int, (i + 1) as int) == all,
            corner_entries(res) == inserted_all(seq![], done),
        decreases 12 - i,
    {
        let mut j: usize = i + 1;
        while j < 12
            invariant
                i < 12,
                i + 1 <= j <= 12,
                triplet_sums.len() == 13,
                sums == triplet_lists(triplet_sums@),
                all == corner_list(sums, 0, 1),
                done + corner_list(sums, i as int, j as int) == all,
                corner_entries(res) == inserted_all(seq![], done),
            decreases 12 - j,
        {
            let triplets = find_unique_triplets(&triplet_sums[i], &triplet_sums[j], &triplet_sums[12]);
            let ghost t = unique_all(sums[i as int], sums[j as int], sums[12], 0);
            assert(triplets@ == t);
            let ghost rest = corner_list(sums, i as int, (j + 1) as int);
            if triplets.len() > 0 {
                let key: Triplet = [i as u16 + 6, j as u16 + 6, 18];
                let ghost kv = (key, t);
                assert(corner_list(sums, i as int, j as int) == seq![kv] + rest);
                insert_corners(&mut res, key, triplets);
                proof {
                    assert(done.push(kv).drop_last() =~= done);
                    assert(done + (seq![kv] + rest) =~= done.push(kv) + rest);
                    done = done.push(kv);
                }
            } else {
                assert(corner_list(sums, i as int, j as int) =~= rest);
            }
            j = j + 1;
        }
        assert(corner_list(sums, i as int, 12) == corner_list(sums, (i + 1) as int, (i + 2) as int));
        i = i + 1;
    }
    assert(corner_list(sums, 12, 13) =~= Seq::<(Triplet, Seq<CornerTriplets>)>::empty());
    assert(done =~= all);
    res
}

/// The pair sums that go with a key: its sequence of twelve.
pub open spec fn sequence_of(key: Triplet) -> Seq<u16> {
    descending_outside(key, 17, 12).reverse()
}

/// For the first `n` keys of a map, each with its sequence of pair sums.
pub open spec fn keyed_sequences(entries: Seq<(Triplet, Seq<CornerTriplets>)>, n: int) -> Seq<(Triplet, Seq<u16>)> {
    Seq::new(n as nat, |k: int| (entries[k].0, sequence_of(entries[k].0)))
}

/// The map from each key of `triplet_map`, in its order, to the sums of the
/// twelve pairs that go with it.
pub fn get_pairs_sequence(triplet_map: &IndexMap<Triplet, Vec<CornerTriplets>>) -> (r: IndexMap<Triplet, [u16; 12]>)
    ensures
        sequence_entries(r) == inserted_all(
            seq![],
            keyed_sequences(corner_entries(*triplet_map), corner_entries(*triplet_map).len() as int),
        ),
{
    let ghost entries = corner_entries(*triplet_map);
    let n = corner_count(triplet_map);
    let mut sequences = new_sequence_map();
    let mut k: usize = 0;
    assert(keyed_sequences(entries, 0) =~= Seq::<(Triplet, Seq<u16>)>::empty());
    while k < n
        invariant
            k <= n,
            n == entries.len(),
            entries == corner_entries(*triplet_map),
            sequence_entries(sequences) == inserted_all(seq![], keyed_sequences(entries, k as int)),
        decreases n - k,
    {
        let key = corner_key(triplet_map, k);
        let seq = pairs_sequence(key);
        insert_sequence(&mut sequences, key, seq);
        proof {
            assert(keyed_sequences(entries, (k + 1) as int).drop_last() =~= keyed_sequences(entries, k as int));
        }
        k = k + 1;
    }
    sequences
}

} // verus!
