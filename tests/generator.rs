use sudoku_engine::combinations::{
    check_frequency_constraint, check_group_constraint, compute_combinations, split_pairs_evenly,
};
use sudoku_engine::constraints::{check_constraints, fill_constraints};
use sudoku_engine::sums::{pair_sums, triplet_sums};

#[test]
fn test_split_pairs_evenly() {
    // 14 15 25 26 37 38 48 58 59 69 79 89
    let pairs = [[1, 4], [1, 5], [2, 5], [2, 6], [3, 7], [3, 8], [4, 8], [5, 8], [5, 9], [6, 9], [7, 9], [8, 9]];

    let splits = split_pairs_evenly(pairs);
    println!("Found {} valid splits:", splits.len());
    for (i, split) in splits.iter().enumerate() {
        println!("Split {}:", i + 1);
        println!("  Group 1: {:?}", &split[0..6]);
        println!("  Group 2: {:?}", &split[6..12]);
    }
    assert!(!splits.is_empty());
}

#[test]
fn combinations_test_split_pairs_evenly() {
    // 14 15 25 26 37 38 48 58 59 69 79 89
    let pairs = [[1, 4], [1, 5], [2, 5], [2, 6], [3, 7], [3, 8], [4, 8], [5, 8], [5, 9], [6, 9], [7, 9], [8, 9]];

    let splits = split_pairs_evenly(pairs);
    assert!(!splits.is_empty());
    for split in &splits {
        assert_eq!(split[0], [1, 4]);
        assert!(check_group_constraint(&split[0..6].to_vec()));
        assert!(check_group_constraint(&split[6..12].to_vec()));
    }
}

#[test]
fn constraints_test_setup() {
    let mut results = vec![];

    let dups = [1, 6, 8];
    let set = [[1, 3], [1, 6], [2, 7], [4, 8], [5, 8], [6, 9], [1, 4], [1, 5], [2, 6], [3, 8], [6, 8], [7, 9]];

    fill_constraints(&set, dups, &mut results);

    assert!(!results.is_empty());
    for res in results {
        assert!(check_constraints(&res, dups));
    }
}

#[test]
fn constraints_test_constraint() {
    let solution = [[6, 1], [4, 8], [9, 6], [5, 8], [1, 3], [2, 7], [7, 9], [6, 8], [2, 6], [4, 1], [1, 5], [3, 8]];

    assert!(check_constraints(&solution, [1, 6, 8]));
}

#[test]
fn check_constraints_rejects_broken_links() {
    let mut solution = [[6, 1], [4, 8], [9, 6], [5, 8], [1, 3], [2, 7], [7, 9], [6, 8], [2, 6], [4, 1], [1, 5], [3, 8]];
    solution[7][1] = 9;
    assert!(!check_constraints(&solution, [1, 6, 8]));
    let solution = [[6, 1], [4, 8], [9, 6], [5, 8], [1, 3], [2, 7], [7, 9], [6, 8], [2, 6], [4, 1], [1, 5], [3, 8]];
    assert!(!check_constraints(&solution, [1, 6, 7]));
}

#[test]
fn fill_constraints_keeps_earlier_results() {
    let mut results = vec![[[0, 0]; 12]];
    let dups = [1, 6, 8];
    let set = [[1, 3], [1, 6], [2, 7], [4, 8], [5, 8], [6, 9], [1, 4], [1, 5], [2, 6], [3, 8], [6, 8], [7, 9]];
    fill_constraints(&set, dups, &mut results);
    assert_eq!(results[0], [[0, 0]; 12]);
    assert!(results.len() > 1);
    for res in &results[1..] {
        for k in 0..12 {
            let [a, b] = res[k];
            let half = if k < 6 { &set[0..6] } else { &set[6..12] };
            assert!(half.contains(&[a, b]) || half.contains(&[b, a]));
        }
    }
}

#[test]
fn pair_sums_lists_every_pair_by_sum() {
    let sums = pair_sums();
    assert_eq!(sums.len(), 14);
    assert_eq!(sums[0], vec![[1, 3]]);
    assert_eq!(sums[6], vec![[1, 9], [2, 8], [3, 7], [4, 6]]);
    assert_eq!(sums[7], vec![[2, 9], [3, 8], [4, 7], [5, 6]]);
    assert_eq!(sums[13], vec![[8, 9]]);
}

#[test]
fn triplet_sums_lists_ascending_triplets() {
    let sums = triplet_sums();
    assert_eq!(sums.len(), 13);
    assert_eq!(sums[2], vec![[1, 2, 5], [1, 3, 4]]);
    for (i, row) in sums.iter().enumerate().take(11) {
        for t in row {
            assert_eq!(t[0] + t[1] + t[2], i as u16 + 6);
        }
    }
}

#[test]
fn digit_frequency_checks() {
    let balanced = vec![[1, 2], [3, 4], [5, 6], [7, 8], [9, 1], [2, 3]];
    assert!(check_group_constraint(&balanced));
    let unbalanced = vec![[1, 2], [3, 4], [5, 6], [7, 8], [9, 1], [1, 3]];
    assert!(!check_group_constraint(&unbalanced));

    let pairs = vec![
        [1, 2], [3, 4], [5, 6], [7, 8], [9, 1], [2, 3],
        [1, 2], [3, 4], [5, 6], [7, 8], [9, 1], [2, 3],
    ];
    // 1, 2 and 3 four times (sum 6), so the repeated digits do not sum to 15
    assert!(!check_frequency_constraint(&pairs));
    let pairs = vec![
        [4, 1], [5, 2], [6, 3], [7, 8], [9, 4], [5, 6],
        [4, 1], [5, 2], [6, 3], [7, 8], [9, 4], [5, 6],
    ];
    assert!(check_frequency_constraint(&pairs));
}

#[test]
fn combinations_pass_the_frequency_test_and_split_evenly() {
    let sequence = [4, 5, 8, 9, 10, 11, 12, 13, 14, 15, 16, 17];
    let sums = pair_sums();
    let results = compute_combinations(&sequence, &sums);
    for res in &results {
        assert!(check_frequency_constraint(&res.to_vec()));
        assert!(check_group_constraint(&res[0..6].to_vec()));
        assert!(check_group_constraint(&res[6..12].to_vec()));
        let mut got: Vec<u16> = res.iter().map(|p| p[0] + p[1]).collect();
        got.sort();
        assert_eq!(got, sequence.to_vec());
    }
}
