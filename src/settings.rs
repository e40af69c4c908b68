use vstd::prelude::*;
use crate::geometry::Orientation;

verus! {

/// How a puzzle is built.
pub struct Settings {
    /// Columns of the grid; grows when the words do not fit.
    pub width: i32,
    /// Rows of the grid; grows when the words do not fit.
    pub height: i32,
    /// The directions a word may take, in the order they are scanned.
    pub orientations: Vec<Orientation>,
    /// Bound on the placement attempts made at one grid size.
    pub max_attempts: i32,
    /// Bound on how many times the grid may grow.
    pub max_grid_growth: i32,
    /// Kept for callers; overlap is always preferred.
    pub prefer_overlap: bool,
}

impl Default for Settings {
    fn default() -> (s: Settings)
        ensures
            s.width == 10,
            s.height == 10,
            s.orientations@ == seq![
                Orientation::Horizontal,
                Orientation::Vertical,
                Orientation::Diagonal,
                Orientation::DiagonalUp,
            ],
            s.max_attempts == 10,
            s.max_grid_growth == 10,
            !s.prefer_overlap,
    {
        Settings {
            width: 10,
            height: 10,
            orientations: vec![
                Orientation::Horizontal,
                Orientation::Vertical,
                Orientation::Diagonal,
                Orientation::DiagonalUp,
            ],
            max_attempts: 10,
            max_grid_growth: 10,
            prefer_overlap: false,
        }
    }
}

impl Settings {
    pub fn set_width(&mut self, width: i32)
        ensures
            final(self).width == width,
            final(self).height == old(self).height,
            final(self).orientations == old(self).orientations,
            final(self).max_attempts == old(self).max_attempts,
            final(self).max_grid_growth == old(self).max_grid_growth,
            final(self).prefer_overlap == old(self).prefer_overlap,
    {
        self.width = width;
    }

    pub fn set_height(&mut self, height: i32)
        ensures
            final(self).height == height,
            final(self).width == old(self).width,
            final(self).orientations == old(self).orientations,
            final(self).max_attempts == old(self).max_attempts,
            final(self).max_grid_growth == old(self).max_grid_growth,
            final(self).prefer_overlap == old(self).prefer_overlap,
    {
        self.height = height;
    }
}

} // verus!
