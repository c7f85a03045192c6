/// Candidate sets of digits as 9-bit words.
pub mod mask;
/// One cell's state and its 16-bit code.
pub mod cell;
/// The 9x9 board, its views and the refinement order on boards.
pub mod grid;
/// Propagation over a group of nine cells, naked subsets included.
pub mod group;
/// The two-cell relations: different digits (cage) and equal digits (mirror).
pub mod relation;
/// The rules applied by the solver, one group per application.
pub mod rules;
/// Passes, elimination by contradiction, and the step budget.
pub mod solver;
/// Tables of digit pairs and triplets by sum, and the pair sums of a corner set.
pub mod sums;
/// Digit-frequency tests, even splits and the search over sum sequences.
pub mod combinations;
/// Placing the pairs of a combination under the puzzle's position constraints.
pub mod constraints;
/// The maps from corner sums to triplets and to pair sums.
pub mod tables;
