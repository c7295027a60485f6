//! The data model of the exact-cover formulation: constraints, candidate
//! choices, and the mapping between constraints and column indices.

use vstd::prelude::*;

verus! {

/// One requirement the finished grid must satisfy exactly once.  All fields
/// are small integers: rows, columns and blocks lie in `[0, 9)`, values in
/// `[1, 9]`.
#[derive(Copy, Clone, PartialEq, Eq, Structural, Hash, Debug)]
pub enum Constraint {
    /// Exactly one value occupies the cell `(row, col)`.
    Square { row: u8, col: u8 },
    /// `value` appears exactly once in `row`.
    Row { row: u8, value: u8 },
    /// `value` appears exactly once in `col`.
    Column { col: u8, value: u8 },
    /// `value` appears exactly once in the 3x3 `block`.
    Block { block: u8, value: u8 },
}

/// A candidate assignment: place `value` at cell `(row, col)`.
#[derive(Copy, Clone, PartialEq, Eq, Structural, Hash, Debug)]
pub struct SquareChoice {
    pub row: u8,
    pub col: u8,
    pub value: u8,
}

/// The fields of a constraint lie in their ranges.
pub open spec fn valid_constraint(c: Constraint) -> bool {
    match c {
        Constraint::Square { row, col } => row < 9 && col < 9,
        Constraint::Row { row, value } => row < 9 && 1 <= value <= 9,
        Constraint::Column { col, value } => col < 9 && 1 <= value <= 9,
        Constraint::Block { block, value } => block < 9 && 1 <= value <= 9,
    }
}

/// The fields of a choice lie in their ranges.
pub open spec fn valid_choice(ch: SquareChoice) -> bool {
    ch.row < 9 && ch.col < 9 && 1 <= ch.value <= 9
}

/// The index of the 3x3 block containing cell `(row, col)`.
pub open spec fn block_of(row: u8, col: u8) -> int {
    3 * (row as int / 3) + col as int / 3
}

/// The four constraints satisfied by a choice, one of each kind.
pub open spec fn square_of(ch: SquareChoice) -> Constraint {
    Constraint::Square { row: ch.row, col: ch.col }
}

pub open spec fn row_of(ch: SquareChoice) -> Constraint {
    Constraint::Row { row: ch.row, value: ch.value }
}

pub open spec fn column_of(ch: SquareChoice) -> Constraint {
    Constraint::Column { col: ch.col, value: ch.value }
}

pub open spec fn block_con_of(ch: SquareChoice) -> Constraint {
    Constraint::Block { block: block_of(ch.row, ch.col) as u8, value: ch.value }
}

/// The choice satisfies the constraint.  Every choice satisfies exactly four
/// constraints, one of each kind.
pub open spec fn touches(ch: SquareChoice, c: Constraint) -> bool {
    c == square_of(ch) || c == row_of(ch) || c == column_of(ch) || c == block_con_of(ch)
}

/// Two choices satisfy a common constraint: same cell, same row and value,
/// same column and value, or same block and value.
pub open spec fn shares_constraint(a: SquareChoice, b: SquareChoice) -> bool {
    exists|c: Constraint| touches(a, c) && touches(b, c)
}

/// No two distinct entries of the sequence satisfy a common constraint.
pub open spec fn pairwise_ok(s: Seq<SquareChoice>) -> bool {
    forall|i: int, j: int|
        0 <= i < s.len() && 0 <= j < s.len() && i != j ==> !shares_constraint(s[i], s[j])
}

/// The column index of a constraint in the flat store of 324 columns:
/// squares first, then row, column and block constraints, each group in
/// row-major / value order.
pub open spec fn con_index(c: Constraint) -> int {
    match c {
        Constraint::Square { row, col } => 9 * row + col,
        Constraint::Row { row, value } => 81 + 9 * row + (value - 1),
        Constraint::Column { col, value } => 162 + 9 * col + (value - 1),
        Constraint::Block { block, value } => 243 + 9 * block + (value - 1),
    }
}

/// The constraint stored at column index `k`; inverse of `con_index`.
pub open spec fn con_at(k: int) -> Constraint {
    if k < 81 {
        Constraint::Square { row: (k / 9) as u8, col: (k % 9) as u8 }
    } else if k < 162 {
        Constraint::Row { row: ((k - 81) / 9) as u8, value: ((k - 81) % 9 + 1) as u8 }
    } else if k < 243 {
        Constraint::Column { col: ((k - 162) / 9) as u8, value: ((k - 162) % 9 + 1) as u8 }
    } else {
        Constraint::Block { block: ((k - 243) / 9) as u8, value: ((k - 243) % 9 + 1) as u8 }
    }
}

pub proof fn lemma_con_index_in_range(c: Constraint)
    requires
        valid_constraint(c),
    ensures
        0 <= con_index(c) < 324,
        con_at(con_index(c)) == c,
{
}

pub proof fn lemma_con_at_valid(k: int)
    requires
        0 <= k < 324,
    ensures
        valid_constraint(con_at(k)),
        con_index(con_at(k)) == k,
{
}

pub proof fn lemma_con_index_injective(c1: Constraint, c2: Constraint)
    requires
        valid_constraint(c1),
        valid_constraint(c2),
        con_index(c1) == con_index(c2),
    ensures
        c1 == c2,
{
    lemma_con_index_in_range(c1);
    lemma_con_index_in_range(c2);
}

/// The four constraints of a valid choice are valid.
pub proof fn lemma_touched_valid(ch: SquareChoice, c: Constraint)
    requires
        valid_choice(ch),
        touches(ch, c),
    ensures
        valid_constraint(c),
{
}

/// Executable form of `con_index`.
pub fn constraint_index(c: Constraint) -> (k: usize)
    requires
        valid_constraint(c),
    ensures
        k == con_index(c),
        k < 324,
{
    match c {
        Constraint::Square { row, col } => 9 * (row as usize) + (col as usize),
        Constraint::Row { row, value } => 81 + 9 * (row as usize) + (value as usize - 1),
        Constraint::Column { col, value } => 162 + 9 * (col as usize) + (value as usize - 1),
        Constraint::Block { block, value } => 243 + 9 * (block as usize) + (value as usize - 1),
    }
}

/// Executable form of `con_at`.
pub fn constraint_at(k: usize) -> (c: Constraint)
    requires
        k < 324,
    ensures
        c == con_at(k as int),
        valid_constraint(c),
{
    proof {
        lemma_con_at_valid(k as int);
    }
    if k < 81 {
        Constraint::Square { row: (k / 9) as u8, col: (k % 9) as u8 }
    } else if k < 162 {
        Constraint::Row { row: ((k - 81) / 9) as u8, value: ((k - 81) % 9 + 1) as u8 }
    } else if k < 243 {
        Constraint::Column { col: ((k - 162) / 9) as u8, value: ((k - 162) % 9 + 1) as u8 }
    } else {
        Constraint::Block { block: ((k - 243) / 9) as u8, value: ((k - 243) % 9 + 1) as u8 }
    }
}

} // verus!
