//! The tunable scoring and animation-pacing constants of the board.

use vstd::prelude::*;

verus! {

/// Points per affected cell when the cell is selected and at least one
/// bonus line exists anywhere on the board.
pub const SCORES_FOR_BONUS_AND_CHECKED: i32 = 100;

/// Points per affected cell when the cell is selected and no bonus line
/// exists on the board.
pub const SCORES_FOR_CHECKED: i32 = 50;

/// Points per affected cell that is not selected but lies on a bonus line.
pub const SCORES_FOR_BONUS_LINE: i32 = 5;

/// The decay countdown a cleared cell starts from.
pub const DECAY_START: i32 = -253;

/// How much the decay countdown advances towards zero on each tick.
pub const DECAY_STEP: i32 = 14;

} // verus!
