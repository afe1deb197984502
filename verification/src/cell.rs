//! The value types a board is made of: cells, cell kinds and the
//! display-only compass directions between consecutive chain links.

use vstd::prelude::*;

verus! {

/// Which of the 8 compass directions a neighbouring chain link lies in,
/// used only to decide which connecting line the renderer draws.
#[derive(Copy, Clone, Debug, PartialEq, Eq, Structural)]
pub enum Direction {
    LeftToRight,
    RightToLeft,
    UpToDown,
    DownToUp,
    UpLeftToDownRight,
    DownLeftToUpRight,
    UpRightToDownLeft,
    DownRightToUpLeft,
    Nowhere,
}

/// The kind of a cell: a normal selectable letter, a vacated slot, or a
/// bonus cell that is never selectable but scores when the chain touches it.
#[derive(Copy, Clone, Debug, PartialEq, Eq, Structural)]
pub enum CeilType {
    Active,
    Empty,
    Bonus,
}

/// One cell of the board.
///
/// `checked` overloads three states: `0` means unselected, a positive value
/// is the cell's 1-based position in the current chain, and a negative value
/// is the remaining decay countdown of a cleared cell.
#[derive(Copy, Clone, Debug)]
pub struct Ceil {
    pub letter: char,
    pub checked: i32,
    pub ceil_type: CeilType,
}

/// The cell every fresh board position starts as: a blank unselected letter.
pub open spec fn blank_ceil() -> Ceil {
    Ceil { letter: ' ', checked: 0, ceil_type: CeilType::Active }
}

/// What a fully decayed cell turns into: a vacated slot.
pub open spec fn vacated_ceil() -> Ceil {
    Ceil { letter: ' ', checked: 0, ceil_type: CeilType::Empty }
}

} // verus!
