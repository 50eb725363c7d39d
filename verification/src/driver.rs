use vstd::prelude::*;

use crate::geometry::Position;
use crate::geometry::on_board;

verus! {

/// Whether a tile may hold a robot at the start of a puzzle: any board tile
/// but the central two-by-two block, which the geometry walls off.
pub open spec fn playable(p: Position) -> bool {
    &&& on_board(p)
    &&& !(7 <= p.x <= 8 && 7 <= p.y <= 8)
}

/// Whether a tile may hold a robot at the start of a puzzle.
pub fn is_playable(position: Position) -> (r: bool)
    ensures
        r == playable(position),
{
    0 <= position.x && position.x < 16 && 0 <= position.y && position.y < 16 && !(7 <= position.x
        && position.x <= 8 && 7 <= position.y && position.y <= 8)
}

/// Whether four robot positions form a start configuration the solver
/// accepts: all four on playable tiles, no two on the same tile.
pub fn is_valid_start(red: Position, green: Position, blue: Position, yellow: Position) -> (r:
    bool)
    ensures
        r == {
            &&& playable(red)
            &&& playable(green)
            &&& playable(blue)
            &&& playable(yellow)
            &&& red != green
            &&& red != blue
            &&& red != yellow
            &&& green != blue
            &&& green != yellow
            &&& blue != yellow
        },
{
    is_playable(red) && is_playable(green) && is_playable(blue) && is_playable(yellow) && red
        != green && red != blue && red != yellow && green != blue && green != yellow && blue
        != yellow
}

} // verus!
