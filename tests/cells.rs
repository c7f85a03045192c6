use sudoku_engine::cell::{collapse_mask, extract_cell, Cell};
use sudoku_engine::grid::Sudoku;
use sudoku_engine::group::{find_naked_sets, update_group};
use sudoku_engine::mask::{get_single_digit, Mask};

fn check_extract() {
    let value_digit = 0b0000_0000_0000_0101;
    let value_marks = 0b1000_0001_0101_0110;

    assert_eq!(extract_cell(value_digit), Cell::Digit(5));
    assert_eq!(extract_cell(value_marks), Cell::Pencil(Mask(0b1_0101_0110)));
}

#[test]
fn checker_v2_test_extract_digit_or_pencilmark_mask() {
    check_extract();
}

#[test]
fn mod_test_extract_digit_or_pencilmark_mask() {
    check_extract();
}

#[test]
fn codes_round_trip() {
    assert_eq!(extract_cell(0), Cell::Empty);
    assert_eq!(extract_cell(9), Cell::Digit(9));
    assert_eq!(extract_cell(10), Cell::Pencil(Mask(10)));
    assert_eq!(extract_cell(0x8000), Cell::Pencil(Mask(0)));
    assert_eq!(Cell::Pencil(Mask(0b11)).code(), 0x8003);
    assert_eq!(Cell::Digit(4).code(), 4);
    assert_eq!(Cell::Empty.code(), 0);
    assert_eq!(Mask(0xffff).code(), 0x81ff);
}

#[test]
fn masks_count_and_collapse() {
    assert_eq!(Mask::all().len(), 9);
    assert_eq!(Mask(0b1_0000_0000).len(), 1);
    assert_eq!(collapse_mask(Mask(0b1_0000_0000)), Cell::Digit(9));
    assert_eq!(collapse_mask(Mask(0b101)), Cell::Pencil(Mask(0b101)));
    assert_eq!(Mask::all().without(7), Mask(0b1_1011_1111));
    assert_eq!(Mask(0b1_1111).intersect(&Mask(0b111_1100)), Mask(0b1_1100));
    assert!(Mask(0b100).has_digit(3));
    assert!(!Mask(0b100).has_digit(2));
}

fn check_naked_sets() {
    let pencilmarks = vec![
        ((0, 0), Mask(0b0111)),
        ((0, 1), Mask(0b0011)),
        ((0, 2), Mask(0b0101)),
        ((0, 3), Mask(0b1001)),
    ];

    let result = find_naked_sets(&pencilmarks);

    let a: Vec<Option<Vec<(usize, usize)>>> = vec![
        Some(vec![(0, 0), (0, 1), (0, 2)]),
        Some(vec![(0, 0), (0, 1), (0, 2)]),
        Some(vec![(0, 0), (0, 1), (0, 2)]),
        Some(vec![(0, 0), (0, 1), (0, 2), (0, 3)]),
        None,
        None,
        None,
        None,
        None,
    ];

    assert_eq!(result, a);
}

#[test]
fn checker_v2_test_find_naked_sets() {
    check_naked_sets();
}

#[test]
fn mod_test_find_naked_sets() {
    check_naked_sets();
}

#[test]
fn test_find_naked_sets() {
    check_naked_sets();
}

#[test]
fn naked_triple_clears_its_digits_from_the_rest_of_the_row() {
    let mut sudoku = Sudoku::new();
    sudoku.set_code((0, 0), Mask(0b111).code());
    sudoku.set_code((0, 1), Mask(0b011).code());
    sudoku.set_code((0, 2), Mask(0b101).code());
    for c in 3..9 {
        sudoku.set_code((0, c), Mask::all().code());
    }
    let row = [0, 1, 2, 3, 4, 5, 6, 7, 8];
    assert!(update_group(&mut sudoku, &row).is_ok());
    assert_eq!(sudoku.code((0, 0)), Mask(0b111).code());
    assert_eq!(sudoku.code((0, 1)), Mask(0b011).code());
    assert_eq!(sudoku.code((0, 2)), Mask(0b101).code());
    for c in 3..9 {
        assert_eq!(sudoku.code((0, c)), Mask(0b1_1111_1000).code());
    }
}

#[test]
fn group_drops_fixed_digits_and_fills_empty_cells() {
    let mut sudoku = Sudoku::new();
    for c in 0..7 {
        sudoku.set_code((2, c), c as u16 + 1);
    }
    let row = [18, 19, 20, 21, 22, 23, 24, 25, 26];
    assert!(update_group(&mut sudoku, &row).is_ok());
    assert_eq!(sudoku.code((2, 7)), Mask(0b1_1000_0000).code());
    assert_eq!(sudoku.code((2, 8)), Mask(0b1_1000_0000).code());
    sudoku.set_code((2, 7), 8);
    assert!(update_group(&mut sudoku, &row).is_ok());
    assert_eq!(sudoku.code((2, 8)), 9);
    assert_eq!(sudoku.code((3, 0)), 0);
}

#[test]
fn group_reports_a_cell_without_candidates() {
    let mut sudoku = Sudoku::new();
    for c in 0..8 {
        sudoku.set_code((0, c), c as u16 + 1);
    }
    sudoku.set_code((0, 8), Mask(0b1).code());
    let row = [0, 1, 2, 3, 4, 5, 6, 7, 8];
    assert!(update_group(&mut sudoku, &row).is_err());
    assert_eq!(sudoku.code((0, 8)), Mask(0b1).code());
}

#[test]
fn single_digit_of_one_bit_words() {
    assert_eq!(get_single_digit(0b100), Some(3));
    assert_eq!(get_single_digit(0x8000), Some(16));
    assert_eq!(get_single_digit(0b101), None);
    assert_eq!(get_single_digit(0), None);
}

#[test]
fn mask_bits_set_and_clear() {
    let mut m = Mask(0b1010);
    m.set(0, true);
    assert_eq!(m, Mask(0b1011));
    m.set(3, false);
    assert_eq!(m, Mask(0b0011));
    m.set(1, true);
    assert_eq!(m, Mask(0b0011));
}
