use vstd::prelude::*;

verus! {

/// The character that marks a cell no word has claimed.
pub open spec fn blank() -> char {
    ' '
}

/// The contents of a grid, row by row.
pub open spec fn grid_view(g: &Vec<Vec<char>>) -> Seq<Seq<char>> {
    g@.map_values(|r: Vec<char>| r@)
}

/// `g` has `h` rows of `w` cells each.
pub open spec fn grid_wf(g: Seq<Seq<char>>, w: int, h: int) -> bool {
    &&& g.len() == h
    &&& forall|r: int| 0 <= r < h ==> #[trigger] g[r].len() == w
}

/// Builds a grid of `h` rows of `w` blank cells.
pub fn blank_grid(w: usize, h: usize) -> (g: Vec<Vec<char>>)
    ensures
        grid_wf(grid_view(&g), w as int, h as int),
        forall|r: int, c: int| 0 <= r < h && 0 <= c < w ==> #[trigger] grid_view(&g)[r][c] == blank(),
{
    let mut g: Vec<Vec<char>> = Vec::new();
    let mut r: usize = 0;
    while r < h
        invariant
            r <= h,
            g@.len() == r,
            forall|i: int| 0 <= i < r ==> #[trigger] g@[i]@.len() == w,
            forall|i: int, c: int| 0 <= i < r && 0 <= c < w ==> #[trigger] g@[i]@[c] == blank(),
        decreases h - r,
    {
        let mut row: Vec<char> = Vec::new();
        let mut c: usize = 0;
        while c < w
            invariant
                c <= w,
                row@.len() == c,
                forall|j: int| 0 <= j < c ==> #[trigger] row@[j] == blank(),
            decreases w - c,
        {
            row.push(' ');
            c += 1;
        }
        g.push(row);
        r += 1;
    }
    g
}

/// The outcome of building a puzzle: the grid and what went wrong.
pub struct Puzzle {
    /// The grid, row by row.
    pub puzzle: Vec<Vec<char>>,
    /// Words that could not be placed in the last attempt.
    pub words_not_placed: Vec<String>,
    /// Notes for the user.
    pub warnings: Vec<String>,
    /// When not empty, the grid is not a valid puzzle.
    pub errors: Vec<String>,
}

impl Puzzle {
    /// A blank `w` by `h` puzzle with empty lists.
    pub fn new(w: i32, h: i32) -> (p: Puzzle)
        requires
            w >= 0,
            h >= 0,
        ensures
            grid_wf(grid_view(&p.puzzle), w as int, h as int),
            forall|r: int, c: int| 0 <= r < h && 0 <= c < w ==> #[trigger] grid_view(&p.puzzle)[r][c] == blank(),
            p.words_not_placed@.len() == 0,
            p.warnings@.len() == 0,
            p.errors@.len() == 0,
    {
        Puzzle {
            puzzle: blank_grid(w as usize, h as usize),
            words_not_placed: Vec::new(),
            warnings: Vec::new(),
            errors: Vec::new(),
        }
    }

    /// Writes `character` at column `x`, row `y`.
    pub fn place_char(&mut self, character: char, x: i32, y: i32)
        requires
            0 <= y < old(self).puzzle@.len(),
            0 <= x < old(self).puzzle@[y as int]@.len(),
        ensures
            grid_view(&final(self).puzzle) == grid_view(&old(self).puzzle).update(
                y as int,
                grid_view(&old(self).puzzle)[y as int].update(x as int, character),
            ),
            final(self).words_not_placed == old(self).words_not_placed,
            final(self).warnings == old(self).warnings,
            final(self).errors == old(self).errors,
    {
        self.puzzle[y as usize][x as usize] = character;
        proof {
            assert(grid_view(&self.puzzle) =~= grid_view(&old(self).puzzle).update(
                y as int,
                grid_view(&old(self).puzzle)[y as int].update(x as int, character),
            ));
        }
    }

    pub fn add_words_not_placed(&mut self, word: &str)
        ensures
            final(self).words_not_placed@.len() == old(self).words_not_placed@.len() + 1,
            final(self).words_not_placed@.drop_last() == old(self).words_not_placed@,
            final(self).words_not_placed@.last()@ == word@,
            final(self).puzzle == old(self).puzzle,
            final(self).warnings == old(self).warnings,
            final(self).errors == old(self).errors,
    {
        self.words_not_placed.push(word.to_owned());
        proof {
            assert(self.words_not_placed@.drop_last() =~= old(self).words_not_placed@);
        }
    }

    pub fn add_warning(&mut self, warning: &str)
        ensures
            final(self).warnings@.len() == old(self).warnings@.len() + 1,
            final(self).warnings@.drop_last() == old(self).warnings@,
            final(self).warnings@.last()@ == warning@,
            final(self).puzzle == old(self).puzzle,
            final(self).words_not_placed == old(self).words_not_placed,
            final(self).errors == old(self).errors,
    {
        self.warnings.push(warning.to_owned());
        proof {
            assert(self.warnings@.drop_last() =~= old(self).warnings@);
        }
    }

    pub fn add_errors(&mut self, error: &str)
        ensures
            final(self).errors@.len() == old(self).errors@.len() + 1,
            final(self).errors@.drop_last() == old(self).errors@,
            final(self).errors@.last()@ == error@,
            final(self).puzzle == old(self).puzzle,
            final(self).words_not_placed == old(self).words_not_placed,
            final(self).warnings == old(self).warnings,
    {
        self.errors.push(error.to_owned());
        proof {
            assert(self.errors@.drop_last() =~= old(self).errors@);
        }
    }
}

} // verus!
