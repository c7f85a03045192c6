use sudoku_engine::cell::Cell;
use sudoku_engine::grid::Sudoku;
use sudoku_engine::rules::registry::{base_rules, extended_rules, AnyRule};
use sudoku_engine::rules::set::RowRule;
use sudoku_engine::rules::{classic_check, Rule};
use sudoku_engine::solver::{run_pass, solve_sudoku, SolveResult};

const PUZZLE: [[u16; 9]; 9] = [
    [0, 6, 0, 8, 0, 0, 0, 0, 0],
    [4, 0, 0, 0, 0, 5, 0, 8, 0],
    [0, 3, 7, 0, 0, 0, 0, 0, 0],
    [0, 0, 0, 0, 0, 0, 0, 0, 0],
    [0, 0, 4, 0, 9, 7, 3, 0, 0],
    [0, 0, 0, 0, 5, 3, 0, 0, 0],
    [7, 0, 0, 0, 0, 1, 4, 6, 0],
    [5, 9, 0, 0, 0, 4, 7, 3, 0],
    [0, 0, 1, 0, 7, 0, 0, 0, 5],
];

const SOLUTION: [[u16; 9]; 9] = [
    [9, 6, 5, 8, 4, 2, 1, 7, 3],
    [4, 1, 2, 7, 3, 5, 9, 8, 6],
    [8, 3, 7, 9, 1, 6, 5, 4, 2],
    [3, 7, 9, 1, 2, 8, 6, 5, 4],
    [2, 5, 4, 6, 9, 7, 3, 1, 8],
    [1, 8, 6, 4, 5, 3, 2, 9, 7],
    [7, 2, 3, 5, 8, 1, 4, 6, 9],
    [5, 9, 8, 2, 6, 4, 7, 3, 1],
    [6, 4, 1, 3, 7, 9, 8, 2, 5],
];

#[test]
fn base_rules_in_order() {
    let rules = base_rules();
    assert_eq!(rules.len(), 3);
    assert!(matches!(rules[0], AnyRule::Box(_)));
    assert!(matches!(rules[1], AnyRule::Col(_)));
    assert!(matches!(rules[2], AnyRule::Row(_)));
}

#[test]
fn extended_rules_reject_a_grid_that_breaks_a_palindrome() {
    let mut rules = extended_rules();
    assert_eq!(rules.len(), 6);
    let mut counter = 0;
    let result = solve_sudoku(Sudoku::from_codes(SOLUTION), &mut rules, &mut counter, 1_000);
    assert!(matches!(result, SolveResult::Unsolvable));
}

fn check_solves_puzzle() {
    let sudoku = Sudoku::from_codes(PUZZLE);
    let solution = Sudoku::from_codes(SOLUTION);
    let mut rules = base_rules();
    let mut counter = 0;
    match solve_sudoku(sudoku, &mut rules, &mut counter, 2_000_000) {
        SolveResult::Solved(result) => {
            assert!(result.same_as(&solution), "Resulting Sudoku:\n{:?}", result);
        }
        SolveResult::Unsolvable => panic!("Should have been solvable"),
        SolveResult::Stuck => panic!("Should have been solvable"),
        SolveResult::LimitReached(_) => panic!("Should have been solved before reaching limit"),
    }
}

#[test]
fn checker_v2_test_checker() {
    check_solves_puzzle();
}

#[test]
fn mod_test_checker() {
    check_solves_puzzle();
}

#[test]
fn solved_grid_has_each_digit_once_per_unit() {
    let mut rules = base_rules();
    let mut counter = 0;
    match solve_sudoku(Sudoku::from_codes(PUZZLE), &mut rules, &mut counter, 2_000_000) {
        SolveResult::Solved(result) => {
            assert!(result.is_complete());
            assert!(classic_check(&result));
        }
        _ => panic!("expected a solution"),
    }
}

fn option_count(c: Cell) -> u32 {
    match c {
        Cell::Empty => 9,
        Cell::Digit(_) => 1,
        Cell::Pencil(m) => m.len(),
    }
}

#[test]
fn passes_never_widen_candidates() {
    let mut sudoku = Sudoku::from_codes(PUZZLE);
    let mut rules = base_rules();
    let mut counter = 0;
    for _ in 0..4 {
        let before = sudoku.clone();
        assert!(run_pass(&mut sudoku, &mut rules, &mut counter).is_ok());
        for i in 0..81 {
            assert!(option_count(sudoku.at(i)) <= option_count(before.at(i)));
        }
    }
    assert_eq!(counter, 4 * 27);
}

#[test]
fn pass_on_solved_grid_changes_nothing() {
    let mut sudoku = Sudoku::from_codes(SOLUTION);
    let before = sudoku.clone();
    let mut rules = base_rules();
    let mut counter = 0;
    assert!(run_pass(&mut sudoku, &mut rules, &mut counter).is_ok());
    assert!(sudoku.same_as(&before));
    assert_eq!(counter, 27);
}

#[test]
fn solving_a_solved_grid_returns_it() {
    let mut rules = base_rules();
    let mut counter = 0;
    match solve_sudoku(Sudoku::from_codes(SOLUTION), &mut rules, &mut counter, 100) {
        SolveResult::Solved(result) => assert!(result.same_as(&Sudoku::from_codes(SOLUTION))),
        _ => panic!("expected the grid back"),
    }
    assert_eq!(counter, 27);
}

#[test]
fn small_budget_stops_with_the_grid_reached() {
    let mut rules = base_rules();
    let mut counter = 0;
    let result = solve_sudoku(Sudoku::from_codes(PUZZLE), &mut rules, &mut counter, 27);
    let mut expected = Sudoku::from_codes(PUZZLE);
    let mut other_rules = base_rules();
    let mut other_counter = 0;
    assert!(run_pass(&mut expected, &mut other_rules, &mut other_counter).is_ok());
    match result {
        SolveResult::LimitReached(grid) => {
            assert!(grid.same_as(&expected));
            assert!(!grid.is_complete());
        }
        _ => panic!("expected the budget to run out"),
    }
    assert_eq!(counter, 27);
}

#[test]
fn zero_budget_returns_the_input() {
    let mut rules = base_rules();
    let mut counter = 0;
    match solve_sudoku(Sudoku::from_codes(PUZZLE), &mut rules, &mut counter, 0) {
        SolveResult::LimitReached(grid) => assert!(grid.same_as(&Sudoku::from_codes(PUZZLE))),
        _ => panic!("expected the budget to run out"),
    }
    assert_eq!(counter, 0);
}

#[test]
fn cell_without_candidates_is_unsolvable() {
    let mut codes = [[0u16; 9]; 9];
    for c in 0..8 {
        codes[0][c] = c as u16 + 1;
    }
    // candidates 1 and 2 only, both taken by the row
    codes[0][8] = 0x8003;
    let mut rules = base_rules();
    let mut counter = 0;
    let result = solve_sudoku(Sudoku::from_codes(codes), &mut rules, &mut counter, 1_000_000);
    assert!(matches!(result, SolveResult::Unsolvable));
}

#[test]
fn repeated_digit_in_complete_grid_is_unsolvable() {
    let mut codes = SOLUTION;
    codes[0][0] = 6;
    let mut rules = base_rules();
    let mut counter = 0;
    let result = solve_sudoku(Sudoku::from_codes(codes), &mut rules, &mut counter, 1_000_000);
    assert!(matches!(result, SolveResult::Unsolvable));
}

#[test]
fn two_completions_leave_the_solver_stuck() {
    let mut codes = SOLUTION;
    codes[0][2] = 0;
    codes[0][5] = 0;
    codes[1][2] = 0;
    codes[1][5] = 0;
    let mut rules = base_rules();
    let mut counter = 0;
    let result = solve_sudoku(Sudoku::from_codes(codes), &mut rules, &mut counter, 1_000_000);
    assert!(matches!(result, SolveResult::Stuck));
}

#[test]
fn rules_report_whether_a_complete_grid_meets_them() {
    let grid = Sudoku::from_codes(SOLUTION);
    for rule in base_rules() {
        assert!(rule.holds(&grid));
    }
    let mut codes = SOLUTION;
    codes[0][0] = 6;
    let bad = Sudoku::from_codes(codes);
    assert!(!RowRule::default().holds(&bad));
}

#[test]
fn empty_cell_is_resolved_by_trials_without_rules() {
    let mut codes = SOLUTION;
    codes[4][4] = 0;
    let mut rules: Vec<AnyRule> = Vec::new();
    let mut counter = 0;
    match solve_sudoku(Sudoku::from_codes(codes), &mut rules, &mut counter, 10) {
        SolveResult::Solved(result) => assert!(result.same_as(&Sudoku::from_codes(SOLUTION))),
        _ => panic!("expected the grid to be completed"),
    }
}

#[test]
fn single_candidate_cell_takes_its_digit() {
    let mut codes = SOLUTION;
    codes[0][0] = 0x8000 | (1 << 8);
    let mut rules: Vec<AnyRule> = Vec::new();
    let mut counter = 0;
    match solve_sudoku(Sudoku::from_codes(codes), &mut rules, &mut counter, 10) {
        SolveResult::Solved(result) => assert!(result.same_as(&Sudoku::from_codes(SOLUTION))),
        _ => panic!("expected the grid to be completed"),
    }
}

#[test]
fn cell_with_no_candidate_is_unsolvable_without_rules() {
    let mut codes = SOLUTION;
    codes[0][0] = 0x8000;
    let mut rules: Vec<AnyRule> = Vec::new();
    let mut counter = 0;
    let result = solve_sudoku(Sudoku::from_codes(codes), &mut rules, &mut counter, 10);
    assert!(matches!(result, SolveResult::Unsolvable));
}
