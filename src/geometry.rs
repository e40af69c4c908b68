use vstd::prelude::*;

verus! {

/// A cell of the grid: column `x`, row `y`, both counted from zero.
#[derive(Debug, Clone, Copy, PartialEq, Eq)]
pub struct Position {
    pub x: i32,
    pub y: i32,
}

impl Position {
    pub fn from(x: i32, y: i32) -> (p: Position)
        ensures
            p.x == x,
            p.y == y,
    {
        Position { x, y }
    }
}

/// The four directions in which a word can be written.
#[derive(Debug, Clone, Copy, PartialEq, Eq, Structural)]
pub enum Orientation {
    Horizontal,
    Vertical,
    Diagonal,
    DiagonalUp,
}

/// The cell of the `i`-th letter of a word that starts at `(x, y)`.
pub open spec fn step(o: Orientation, x: int, y: int, i: int) -> (int, int) {
    match o {
        Orientation::Horizontal => (x + i, y),
        Orientation::Vertical => (x, y + i),
        Orientation::Diagonal => (x + i, y + i),
        Orientation::DiagonalUp => (x + i, y - i),
    }
}

/// Whether a word of length `l` starting at `(x, y)` stays inside a grid of
/// `h` rows and `w` columns, judged from the origin alone.
pub open spec fn fits(o: Orientation, x: int, y: int, h: int, w: int, l: int) -> bool {
    match o {
        Orientation::Horizontal => w >= x + l,
        Orientation::Vertical => h >= y + l,
        Orientation::Diagonal => w >= x + l && h >= y + l,
        Orientation::DiagonalUp => w >= x + l && y + 1 >= l,
    }
}

/// The origin at which a scan resumes after `(x, y)` failed `fits`.
pub open spec fn next_scan(o: Orientation, x: int, y: int, l: int) -> (int, int) {
    match o {
        Orientation::Horizontal => (x, y + 1),
        Orientation::Vertical => (0, y + 100),
        Orientation::Diagonal => (0, y + 1),
        Orientation::DiagonalUp => (0, if y < l - 1 { l - 1 } else { y + 1 }),
    }
}

/// `v` is representable as an `i32`.
pub open spec fn in_i32(v: int) -> bool {
    i32::MIN <= v <= i32::MAX
}

/// The cell of the `i`-th letter of a word that starts at `(x, y)`.
pub fn get_orientation(orientation: &Orientation, x: i32, y: i32, i: i32) -> (p: Position)
    requires
        in_i32(step(*orientation, x as int, y as int, i as int).0),
        in_i32(step(*orientation, x as int, y as int, i as int).1),
    ensures
        (p.x as int, p.y as int) == step(*orientation, x as int, y as int, i as int),
{
    match orientation {
        Orientation::Horizontal => Position::from(x + i, y),
        Orientation::Vertical => Position::from(x, y + i),
        Orientation::Diagonal => Position::from(x + i, y + i),
        Orientation::DiagonalUp => Position::from(x + i, y - i),
    }
}

/// Whether a word of length `l` starting at `(x, y)` fits in an `h` by `w` grid.
pub fn check_orientation(orientation: &Orientation, x: i32, y: i32, h: i32, w: i32, l: i32) -> (r:
    bool)
    ensures
        r == fits(*orientation, x as int, y as int, h as int, w as int, l as int),
{
    let (x, y, h, w, l) = (x as i64, y as i64, h as i64, w as i64, l as i64);
    match orientation {
        Orientation::Horizontal => w >= x + l,
        Orientation::Vertical => h >= y + l,
        Orientation::Diagonal => w >= x + l && h >= y + l,
        Orientation::DiagonalUp => w >= x + l && y + 1 >= l,
    }
}

/// The next origin worth testing after `(x, y)` failed `check_orientation`.
pub fn skip_orientation(orientation: &Orientation, x: i32, y: i32, l: i32) -> (p: Position)
    requires
        in_i32(next_scan(*orientation, x as int, y as int, l as int).1),
        in_i32(l - 1),
    ensures
        (p.x as int, p.y as int) == next_scan(*orientation, x as int, y as int, l as int),
{
    match orientation {
        Orientation::Horizontal => Position::from(x, y + 1),
        Orientation::Vertical => Position::from(0, y + 100),
        Orientation::Diagonal => Position::from(0, y + 1),
        Orientation::DiagonalUp => Position::from(0, if y < l - 1 { l - 1 } else { y + 1 }),
    }
}

/// Every letter of a word whose origin lies in the grid and passes `fits`
/// lands on a cell of the grid.
pub proof fn lemma_fits_stays_in_grid(o: Orientation, x: int, y: int, h: int, w: int, l: int, i: int)
    requires
        0 <= x < w,
        0 <= y < h,
        fits(o, x, y, h, w, l),
        0 <= i < l,
    ensures
        0 <= step(o, x, y, i).0 < w,
        0 <= step(o, x, y, i).1 < h,
{
}

/// A failed origin fails for every later cell of its row and every row
/// before the one the scan resumes at: restarting at column zero of that
/// row passes over no origin that fits.
pub proof fn lemma_skip_passes_no_fit(o: Orientation, x: int, y: int, h: int, w: int, l: int, x2: int, y2: int)
    requires
        !fits(o, x, y, h, w, l),
        x2 >= 0,
        (y2 == y && x2 >= x) || (y < y2 < next_scan(o, x, y, l).1),
    ensures
        !fits(o, x2, y2, h, w, l),
        next_scan(o, x, y, l).1 > y,
{
}

} // verus!
