use vstd::prelude::*;

use crate::cell::Cell;
use crate::grid::Sudoku;
use crate::rules::cage::{default_cages, CageRule};
use crate::rules::palindrome::{default_lines, PalindromeRule};
use crate::rules::set::{default_groups, BoxRule, CageRule as SetCageRule, ColRule, RowRule};
use crate::rules::Rule;

verus! {

/// Any of the rules, so that one list can hold several kinds.
#[derive(Debug)]
pub enum AnyRule {
    Row(RowRule),
    Col(ColRule),
    Box(BoxRule),
    SetCage(SetCageRule),
    Cage(CageRule),
    Palindrome(PalindromeRule),
}

impl Rule for AnyRule {
    open spec fn inv(&self) -> bool {
        match self {
            AnyRule::Row(r) => r.inv(),
            AnyRule::Col(r) => r.inv(),
            AnyRule::Box(r) => r.inv(),
            AnyRule::SetCage(r) => r.inv(),
            AnyRule::Cage(r) => r.inv(),
            AnyRule::Palindrome(r) => r.inv(),
        }
    }

    open spec fn outcome(&self, g: Seq<Cell>) -> Option<Seq<Cell>> {
        match self {
            AnyRule::Row(r) => r.outcome(g),
            AnyRule::Col(r) => r.outcome(g),
            AnyRule::Box(r) => r.outcome(g),
            AnyRule::SetCage(r) => r.outcome(g),
            AnyRule::Cage(r) => r.outcome(g),
            AnyRule::Palindrome(r) => r.outcome(g),
        }
    }

    open spec fn advanced(&self) -> Self {
        match self {
            AnyRule::Row(r) => AnyRule::Row(r.advanced()),
            AnyRule::Col(r) => AnyRule::Col(r.advanced()),
            AnyRule::Box(r) => AnyRule::Box(r.advanced()),
            AnyRule::SetCage(r) => AnyRule::SetCage(r.advanced()),
            AnyRule::Cage(r) => AnyRule::Cage(r.advanced()),
            AnyRule::Palindrome(r) => AnyRule::Palindrome(r.advanced()),
        }
    }

    open spec fn satisfied(&self, g: Seq<Cell>) -> bool {
        match self {
            AnyRule::Row(r) => r.satisfied(g),
            AnyRule::Col(r) => r.satisfied(g),
            AnyRule::Box(r) => r.satisfied(g),
            AnyRule::SetCage(r) => r.satisfied(g),
            AnyRule::Cage(r) => r.satisfied(g),
            AnyRule::Palindrome(r) => r.satisfied(g),
        }
    }

    proof fn lemma_outcome(&self, g: Seq<Cell>) {
        match self {
            AnyRule::Row(r) => r.lemma_outcome(g),
            AnyRule::Col(r) => r.lemma_outcome(g),
            AnyRule::Box(r) => r.lemma_outcome(g),
            AnyRule::SetCage(r) => r.lemma_outcome(g),
            AnyRule::Cage(r) => r.lemma_outcome(g),
            AnyRule::Palindrome(r) => r.lemma_outcome(g),
        }
    }

    fn update_cells(&mut self, sudoku: &mut Sudoku) -> (r: Result<(), ()>) {
        match self {
            AnyRule::Row(r) => r.update_cells(sudoku),
            AnyRule::Col(r) => r.update_cells(sudoku),
            AnyRule::Box(r) => r.update_cells(sudoku),
            AnyRule::SetCage(r) => r.update_cells(sudoku),
            AnyRule::Cage(r) => r.update_cells(sudoku),
            AnyRule::Palindrome(r) => r.update_cells(sudoku),
        }
    }

    fn holds(&self, sudoku: &Sudoku) -> (r: bool) {
        match self {
            AnyRule::Row(r) => r.holds(sudoku),
            AnyRule::Col(r) => r.holds(sudoku),
            AnyRule::Box(r) => r.holds(sudoku),
            AnyRule::SetCage(r) => r.holds(sudoku),
            AnyRule::Cage(r) => r.holds(sudoku),
            AnyRule::Palindrome(r) => r.holds(sudoku),
        }
    }
}

/// The classic rule set: boxes, columns and rows.
pub fn base_rules() -> (r: Vec<AnyRule>)
    ensures
        r.len() == 3,
        forall|i: int| 0 <= i < r.len() ==> (#[trigger] r@[i]).inv(),
        r@[0] == AnyRule::Box(BoxRule { counter: 0 }),
        r@[1] == AnyRule::Col(ColRule { counter: 0 }),
        r@[2] == AnyRule::Row(RowRule { counter: 0 }),
{
    vec![
        AnyRule::Box(BoxRule::default()),
        AnyRule::Col(ColRule::default()),
        AnyRule::Row(RowRule::default()),
    ]
}

/// The classic rule set followed by the puzzle's cages, palindromes and the
/// groups that the caged pairs form.
pub fn extended_rules() -> (r: Vec<AnyRule>)
    ensures
        r.len() == 6,
        forall|i: int| 0 <= i < r.len() ==> (#[trigger] r@[i]).inv(),
        r@[0] == AnyRule::Box(BoxRule { counter: 0 }),
        r@[1] == AnyRule::Col(ColRule { counter: 0 }),
        r@[2] == AnyRule::Row(RowRule { counter: 0 }),
        r@[3] matches AnyRule::Cage(c) && c.counter == 0 && c.cages@ == default_cages(),
        r@[4] matches AnyRule::Palindrome(p) && p.counter == 0 && p.sets.len() == 6 && forall|k: int|
            0 <= k < 6 ==> (#[trigger] p.sets@[k])@ == default_lines()[k],
        r@[5] matches AnyRule::SetCage(c) && c.counter == 0 && c.sets.len() == 2 && c.sets@[0]@
            == default_groups()[0] && c.sets@[1]@ == default_groups()[1],
{
    vec![
        AnyRule::Box(BoxRule::default()),
        AnyRule::Col(ColRule::default()),
        AnyRule::Row(RowRule::default()),
        AnyRule::Cage(CageRule::default()),
        AnyRule::Palindrome(PalindromeRule::default()),
        AnyRule::SetCage(SetCageRule::default()),
    ]
}

} // verus!
