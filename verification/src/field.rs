use vstd::prelude::*;

verus! {

/// The colour of a decided cell.
#[derive(Copy, Clone, Debug, PartialEq, Eq, Structural)]
pub enum Field {
    /// Part of a word.
    White,
    /// A block that separates words.
    Black,
}

/// What a read of any position yields, inside the grid or not.
#[derive(Copy, Clone, Debug, PartialEq, Eq, Structural)]
pub enum FieldEx {
    /// A decided cell.
    Field(Field),
    /// A position outside the grid.
    OutOfBounds,
    /// A cell of the grid that has not been decided yet.
    Unfilled,
}

/// The running tallies after some number of committed cells.
#[derive(Copy, Clone, Debug, PartialEq, Eq, Structural)]
pub struct Counts {
    /// The next clue number of the forward scan.
    pub number: usize,
    /// How many across clues the forward scan has consumed.
    pub accross_used: usize,
    /// How many down clues the forward scan has consumed.
    pub down_used: usize,
    /// The next clue number of the scan from the far end, counting down.
    pub reverse_number: usize,
    /// How many across clues the scan from the far end has consumed.
    pub reverse_accross_used: usize,
    /// How many down clues the scan from the far end has consumed.
    pub reverse_down_used: usize,
}

/// The rule that a candidate cell broke.
#[derive(Copy, Clone, Debug, PartialEq, Eq, Structural)]
pub enum RuleViolation {
    NumberWrongAccross,
    NumberWrongDown,
    NumberWrongAccrossReverse,
    NumberWrongDownReverse,
    WordTooShortAccross,
    WordTooShortDown,
    TooLittleSpaceAccross,
    TooLittleSpaceDown,
    LeftOverAccross,
    LeftOverDown,
}

/// The colour that a cell counts as next to a word: the border is a wall.
pub open spec fn colour_of(cell: FieldEx) -> Field {
    match cell {
        FieldEx::Field(f) => f,
        _ => Field::Black,
    }
}

} // verus!
