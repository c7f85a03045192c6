use sudoku_engine::sums::{find_unique_triplets, pairs_sequence, triplet_sums};
use sudoku_engine::tables::{get_pairs_sequence, get_triplet_map};

#[test]
fn pairs_sequence_skips_the_corner_sums() {
    assert_eq!(pairs_sequence([6, 7, 18]), [4, 5, 8, 9, 10, 11, 12, 13, 14, 15, 16, 17]);
    assert_eq!(pairs_sequence([16, 17, 18]), [4, 5, 6, 7, 8, 9, 10, 11, 12, 13, 14, 15]);
    assert_eq!(pairs_sequence([1, 2, 3]), [6, 7, 8, 9, 10, 11, 12, 13, 14, 15, 16, 17]);
}

#[test]
fn unique_triplets_use_nine_different_digits() {
    let s1 = vec![[1, 2, 3], [1, 2, 4]];
    let s2 = vec![[4, 5, 6], [3, 5, 6]];
    let s3 = vec![[7, 8, 9], [6, 8, 9]];
    let found = find_unique_triplets(&s1, &s2, &s3);
    assert_eq!(found, vec![[[1, 2, 3], [4, 5, 6], [7, 8, 9]], [[1, 2, 4], [3, 5, 6], [7, 8, 9]]]);
}

#[test]
fn triplet_map_keys_and_corners() {
    let sums = triplet_sums();
    let map = get_triplet_map(&sums);
    assert!(!map.is_empty());
    let mut previous: Option<[u16; 3]> = None;
    for (key, corners) in &map {
        assert_eq!(key[2], 18);
        assert!(key[0] < key[1] && key[1] < 18);
        if let Some(p) = previous {
            assert!(p < *key);
        }
        previous = Some(*key);
        assert!(!corners.is_empty());
        for [a, b, c] in corners {
            let mut digits: Vec<u16> = a.iter().chain(b.iter()).chain(c.iter()).copied().collect();
            digits.sort();
            assert_eq!(digits, vec![1, 2, 3, 4, 5, 6, 7, 8, 9]);
            assert!(sums[(key[0] - 6) as usize].contains(a));
            assert!(sums[(key[1] - 6) as usize].contains(b));
            assert!(sums[12].contains(c));
        }
    }
    assert_eq!(map.len(), 8);
    let first = map.get_index(0).unwrap();
    assert_eq!(*first.0, [9, 17, 18]);
    assert_eq!(first.1, &vec![[[1, 2, 6], [4, 5, 9], [3, 7, 8]]]);
    let last = map.get_index(7).unwrap();
    assert_eq!(*last.0, [13, 15, 18]);
}

#[test]
fn pairs_sequence_map_follows_the_triplet_map() {
    let map = get_triplet_map(&triplet_sums());
    let sequences = get_pairs_sequence(&map);
    assert_eq!(sequences.len(), map.len());
    for (i, (key, seq)) in sequences.iter().enumerate() {
        assert_eq!(map.get_index(i).unwrap().0, key);
        assert_eq!(*seq, pairs_sequence(*key));
    }
}
