use sudoku_engine::grid::Sudoku;
use sudoku_engine::mask::Mask;
use sudoku_engine::rules::cage::CageRule;
use sudoku_engine::rules::palindrome::PalindromeRule;
use sudoku_engine::rules::set::CageRule as SetCageRule;
use sudoku_engine::rules::Rule;

#[test]
fn test_digit_and_pencilmark() {
    let mut sudoku = Sudoku::from_codes([[0; 9]; 9]);

    sudoku.set_code((0, 4), 7);
    sudoku.set_code((1, 4), Mask::all().code());

    let mut rule = CageRule::default();
    let result = rule.update_cells(&mut sudoku);

    assert!(result.is_ok());
    assert_eq!(sudoku.code((1, 4)), Mask(0b110111111).code());
}

#[test]
fn cage_with_equal_digits_is_a_contradiction() {
    let mut sudoku = Sudoku::new();
    sudoku.set_code((0, 4), 3);
    sudoku.set_code((1, 4), 3);
    assert!(CageRule::default().update_cells(&mut sudoku).is_err());
}

#[test]
fn cage_collapses_and_empties() {
    let mut sudoku = Sudoku::new();
    sudoku.set_code((0, 4), 3);
    sudoku.set_code((1, 4), Mask(0b110).code());
    assert!(CageRule::default().update_cells(&mut sudoku).is_ok());
    assert_eq!(sudoku.code((1, 4)), 2);

    let mut sudoku = Sudoku::new();
    sudoku.set_code((0, 4), 3);
    sudoku.set_code((1, 4), Mask(0b100).code());
    assert!(CageRule::default().update_cells(&mut sudoku).is_err());
}

#[test]
fn cage_leaves_open_pairs_alone() {
    let mut sudoku = Sudoku::new();
    sudoku.set_code((0, 4), Mask(0b11).code());
    sudoku.set_code((1, 4), Mask(0b11).code());
    let mut rule = CageRule::default();
    assert!(rule.update_cells(&mut sudoku).is_ok());
    assert_eq!(sudoku.code((0, 4)), Mask(0b11).code());
    assert_eq!(sudoku.code((1, 4)), Mask(0b11).code());
    assert_eq!(rule.counter, 1);
}

#[test]
fn test_digit_to_pencilmark() {
    let mut sudoku = Sudoku::new();

    sudoku.set_code((1, 4), 7);
    sudoku.set_code((4, 1), Mask::all().code());

    let mut rule = PalindromeRule::default();
    let result = rule.update_cells(&mut sudoku);

    assert!(result.is_ok());
    assert_eq!(sudoku.code((4, 1)), 7);
}

#[test]
fn test_digit_invalid_pencilmark() {
    let mut sudoku = Sudoku::new();

    sudoku.set_code((1, 4), 7);
    sudoku.set_code((4, 1), Mask(0b000111111).code());

    let mut rule = PalindromeRule::default();
    let result = rule.update_cells(&mut sudoku);

    assert!(result.is_err());
}

#[test]
fn test_pencilmark_intersection() {
    let mut sudoku = Sudoku::new();

    sudoku.set_code((1, 4), Mask(0b000011111).code());
    sudoku.set_code((4, 1), Mask(0b001111100).code());

    sudoku.set_code((2, 3), Mask(0b101010101).code());
    sudoku.set_code((3, 2), Mask(0b011111110).code());

    let mut rule = PalindromeRule::default();
    let result = rule.update_cells(&mut sudoku);

    assert!(result.is_ok());

    let expected = Mask(0b000011100).code();
    assert_eq!(sudoku.code((1, 4)), expected);
    assert_eq!(sudoku.code((4, 1)), expected);

    let expected = Mask(0b001010100).code();
    assert_eq!(sudoku.code((2, 3)), expected);
    assert_eq!(sudoku.code((3, 2)), expected);
}

#[test]
fn palindrome_with_disjoint_candidates_is_a_contradiction() {
    let mut sudoku = Sudoku::new();
    sudoku.set_code((1, 6), Mask(0b11).code());
    sudoku.set_code((2, 5), Mask(0b1100).code());
    let mut rule = PalindromeRule::default();
    assert!(rule.update_cells(&mut sudoku).is_ok());
    assert!(rule.update_cells(&mut sudoku).is_err());
}

#[test]
fn set_cage_applies_the_group_rule_to_its_cells() {
    let mut sudoku = Sudoku::new();
    let cells = [(0, 2), (1, 2), (0, 4), (0, 6), (7, 2), (8, 2), (8, 4), (7, 6)];
    for (k, &p) in cells.iter().enumerate() {
        sudoku.set_code(p, k as u16 + 1);
    }
    let mut rule = SetCageRule::default();
    assert!(rule.update_cells(&mut sudoku).is_ok());
    assert_eq!(sudoku.code((8, 6)), 9);
    assert_eq!(rule.counter, 1);
}
