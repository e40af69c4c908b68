use vstd::prelude::*;
use crate::geometry::Orientation;

verus! {

/// A placement of a word: its origin, direction, and how many of its
/// letters fall on equal letters already in the grid.
#[derive(Debug, Clone)]
pub struct Location {
    /// Column of the first letter.
    pub x: i32,
    /// Row of the first letter.
    pub y: i32,
    /// Letters shared with words already placed.
    pub overlap: i32,
    pub orientation: Orientation,
    pub word: String,
}

impl Location {
    pub fn from(x: i32, y: i32, overlap: i32, orientation: &Orientation, word: &str) -> (l: Location)
        ensures
            l.x == x,
            l.y == y,
            l.overlap == overlap,
            l.orientation == *orientation,
            l.word@ == word@,
    {
        Location { x, y, overlap, orientation: *orientation, word: word.to_owned() }
    }
}

} // verus!
