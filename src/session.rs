use vstd::prelude::*;
use vstd::string::{StrSliceExecFns, StringExecFns};
use crate::geometry::{Orientation, fits, lemma_fits_stays_in_grid, step};
use crate::grid::{Puzzle, blank, blank_grid, grid_view, grid_wf};
use crate::placement::{has_spot, is_best_spot, lemma_blank_grid_has_spot, lemma_placed_changes_only_path, lemma_placed_spot, on_path, place_word_in_puzzle, placed, word_at};
use crate::random::RandomSource;
use crate::settings::Settings;

verus! {

/// The length of the longest of `words`.
pub open spec fn max_len(words: Seq<String>) -> nat
    decreases words.len(),
{
    if words.len() == 0 {
        0
    } else {
        let m = max_len(words.drop_last());
        if words.last()@.len() > m { words.last()@.len() } else { m }
    }
}

/// The first index of `t` holding a word longer than `n` letters, or the
/// length of `t` when there is none.
pub open spec fn first_longer(t: Seq<String>, n: nat) -> nat
    decreases t.len(),
{
    if t.len() == 0 {
        0
    } else if t[0]@.len() > n {
        0
    } else {
        1 + first_longer(t.drop_first(), n)
    }
}

/// `words` ordered by length, words of equal length keeping their order.
pub open spec fn sort_by_len(words: Seq<String>) -> Seq<String>
    decreases words.len(),
{
    if words.len() == 0 {
        words
    } else {
        let t = sort_by_len(words.drop_last());
        t.insert(first_longer(t, words.last()@.len()) as int, words.last())
    }
}

/// The decimal digits of `n`.
pub open spec fn decimal(n: nat) -> Seq<char>
    decreases n,
{
    if n < 10 {
        seq!["0123456789"@[n as int]]
    } else {
        decimal(n / 10) + seq!["0123456789"@[(n % 10) as int]]
    }
}

/// The error recorded when no `w` by `h` grid held every word and the grid
/// may not grow further.
pub open spec fn growth_error(w: nat, h: nat) -> Seq<char> {
    "No valid "@ + decimal(w) + "x"@ + decimal(h) + " grid found and not allowed to grow more"@
}

/// How many of the first `n` cells of `row` are blank.
pub open spec fn row_blanks(row: Seq<char>, n: nat) -> nat
    decreases n,
{
    if n == 0 {
        0
    } else {
        row_blanks(row, (n - 1) as nat) + if row[n - 1] == blank() { 1nat } else { 0nat }
    }
}

/// How many cells of the first `n` rows of `g` are blank.
pub open spec fn grid_blanks(g: Seq<Seq<char>>, n: nat) -> nat
    decreases n,
{
    if n == 0 {
        0
    } else {
        grid_blanks(g, (n - 1) as nat) + row_blanks(g[n - 1], g[n - 1].len())
    }
}

pub open spec fn is_lower(c: char) -> bool {
    'a' <= c <= 'z'
}

/// No word holds the blank character.
pub open spec fn no_blank_letters(words: Seq<String>) -> bool {
    forall|j: int, i: int| 0 <= j < words.len() && 0 <= i < words[j]@.len() ==> #[trigger] words[j]@[i] != blank()
}

/// `word` can be read in the `w` by `h` grid `g` from some origin along
/// some allowed direction.
pub open spec fn shows_word(g: Seq<Seq<char>>, word: Seq<char>, os: Seq<Orientation>, w: int, h: int) -> bool {
    exists|o: Orientation, x: int, y: int| {
        &&& os.contains(o)
        &&& 0 <= x < w
        &&& 0 <= y < h
        &&& fits(o, x, y, h, w, word.len() as int)
        &&& #[trigger] word_at(g, word, x, y, o)
    }
}

proof fn lemma_shows_word_kept(g: Seq<Seq<char>>, g2: Seq<Seq<char>>, word: Seq<char>, os: Seq<Orientation>, w: int, h: int)
    requires
        shows_word(g, word, os, w, h),
        forall|i: int| 0 <= i < word.len() ==> #[trigger] word[i] != blank(),
        forall|r: int, c: int| 0 <= r < h && 0 <= c < w && g[r][c] != blank() ==> #[trigger] g2[r][c] == g[r][c],
    ensures
        shows_word(g2, word, os, w, h),
{
    let (o, x, y) = choose|o: Orientation, x: int, y: int| {
        &&& os.contains(o)
        &&& 0 <= x < w
        &&& 0 <= y < h
        &&& fits(o, x, y, h, w, word.len() as int)
        &&& #[trigger] word_at(g, word, x, y, o)
    };
    assert forall|i: int| 0 <= i < word.len() implies #[trigger] g2[step(o, x, y, i).1][step(o, x, y, i).0] == word[i] by {
        lemma_fits_stays_in_grid(o, x, y, h, w, word.len() as int, i);
        assert(g[step(o, x, y, i).1][step(o, x, y, i).0] == word[i]);
    }
    assert(word_at(g2, word, x, y, o));
}

/// `g` is the `w` by `h` grid `placed` after filling: word letters kept,
/// blank cells given lowercase letters.
pub open spec fn filled_grid(placed: Seq<Seq<char>>, g: Seq<Seq<char>>, w: int, h: int) -> bool {
    &&& grid_wf(placed, w, h)
    &&& grid_wf(g, w, h)
    &&& forall|r: int, c: int| 0 <= r < h && 0 <= c < w ==> filled_from(placed[r][c], #[trigger] g[r][c])
}

/// Every letter in the `w` by `h` grid `g` lies on the path of one of the
/// first `n` words, written at an allowed direction from an origin in the
/// grid where it fits.
pub open spec fn letters_on_paths(g: Seq<Seq<char>>, words: Seq<String>, n: int, os: Seq<Orientation>, w: int, h: int) -> bool {
    forall|r: int, c: int| 0 <= r < h && 0 <= c < w && #[trigger] g[r][c] != blank() ==>
        exists|j: int, o: Orientation, x: int, y: int| {
            &&& 0 <= j < n
            &&& os.contains(o)
            &&& 0 <= x < w
            &&& 0 <= y < h
            &&& fits(o, x, y, h, w, words[j]@.len() as int)
            &&& #[trigger] on_path(o, x, y, words[j]@.len() as int, c, r)
        }
}

/// A puzzle being built from a list of words.
pub struct WordSearch {
    /// The words, shortest first.
    pub words: Vec<String>,
    pub settings: Settings,
    /// The length of the longest word: the grid never gets narrower.
    pub max_word_len: i32,
    /// Cells given a filler letter when the puzzle was completed.
    pub filler_cells: u64,
    pub puzzle: Puzzle,
}

fn push_decimal(s: &mut String, n: u32)
    ensures
        final(s)@ == old(s)@ + decimal(n as nat),
    decreases n,
{
    proof {
        reveal_strlit("0123456789");
    }
    if n >= 10 {
        push_decimal(s, n / 10);
    }
    let d = (n % 10) as usize;
    s.append("0123456789".substring_char(d, d + 1));
    proof {
        assert(("0123456789"@.subrange(d as int, d as int + 1)) =~= seq!["0123456789"@[d as int]]);
        if n >= 10 {
            assert(decimal(n as nat) == decimal((n / 10) as nat) + seq!["0123456789"@[d as int]]);
        }
        assert(final(s)@ =~= old(s)@ + decimal(n as nat));
    }
}

/// The message for a grid that could not be completed at `w` by `h`.
fn growth_error_message(w: i32, h: i32) -> (m: String)
    requires
        w >= 0,
        h >= 0,
    ensures
        m@ == growth_error(w as nat, h as nat),
{
    let mut m = String::from_str("No valid ");
    push_decimal(&mut m, w as u32);
    m.append("x");
    push_decimal(&mut m, h as u32);
    m.append(" grid found and not allowed to grow more");
    assert(m@ =~= growth_error(w as nat, h as nat));
    m
}

/// A filler letter: the `k`-th of the lowercase alphabet.
fn letter(k: usize) -> (c: char)
    requires
        k < 26,
    ensures
        is_lower(c),
        c != blank(),
{
    proof {
        reveal_strlit("abcdefghijklmnopqrstuvwxyz");
    }
    let c = "abcdefghijklmnopqrstuvwxyz".get_char(k);
    c
}

/// The words of `words`, ordered by length, equal lengths in their order.
pub fn sort_words(words: &Vec<String>) -> (r: Vec<String>)
    ensures
        r@ == sort_by_len(words@),
        r@.len() == words@.len(),
        forall|a: int, b: int| 0 <= a < b < r@.len() ==> (#[trigger] r@[a])@.len() <= (#[trigger] r@[b])@.len(),
{
    let mut r: Vec<String> = Vec::new();
    let mut i: usize = 0;
    while i < words.len()
        invariant
            i <= words@.len(),
            r@ == sort_by_len(words@.subrange(0, i as int)),
        decreases words@.len() - i,
    {
        let n = words[i].as_str().unicode_len();
        let mut p: usize = 0;
        assert(r@.subrange(0, r@.len() as int) =~= r@);
        while p < r.len() && r[p].as_str().unicode_len() <= n
            invariant
                i < words@.len(),
                p <= r@.len(),
                n == words@[i as int]@.len(),
                first_longer(r@, n as nat) == p + first_longer(r@.subrange(p as int, r@.len() as int), n as nat),
            decreases r@.len() - p,
        {
            proof {
                let t = r@.subrange(p as int, r@.len() as int);
                assert(t.drop_first() =~= r@.subrange(p + 1, r@.len() as int));
            }
            p += 1;
        }
        proof {
            let t = r@.subrange(p as int, r@.len() as int);
            assert(first_longer(t, n as nat) == 0);
            let s = words@.subrange(0, i + 1);
            assert(s.drop_last() =~= words@.subrange(0, i as int));
        }
        r.insert(p, words[i].clone());
        i += 1;
    }
    assert(words@.subrange(0, words@.len() as int) =~= words@);
    proof {
        lemma_sorted_by_len(words@);
        lemma_sort_len(words@);
    }
    r
}

proof fn lemma_max_len_bounds(words: Seq<String>, j: int)
    requires
        0 <= j < words.len(),
    ensures
        words[j]@.len() <= max_len(words),
    decreases words.len(),
{
    if j < words.len() - 1 {
        lemma_max_len_bounds(words.drop_last(), j);
    }
}

impl WordSearch {
    /// The session's invariant: a non-empty word list, a grid at least as
    /// wide and as tall as the longest word, and a grid of that size.
    pub open spec fn wf(&self) -> bool {
        &&& self.words@.len() > 0
        &&& self.max_word_len as nat == max_len(self.words@)
        &&& self.settings.width >= self.max_word_len >= 0
        &&& self.settings.height >= self.max_word_len
        &&& grid_wf(grid_view(&self.puzzle.puzzle), self.settings.width as int, self.settings.height as int)
    }

    /// A session for `words` on a grid of at least `w` by `h`, widened to
    /// the longest word, with the default settings otherwise.
    pub fn new(words: &Vec<String>, w: i32, h: i32) -> (s: WordSearch)
        requires
            words@.len() > 0,
            forall|j: int| 0 <= j < words@.len() ==> (#[trigger] words@[j])@.len() <= i32::MAX,
        ensures
            s.wf(),
            s.words@ == sort_by_len(words@),
            s.max_word_len == max_len(s.words@),
            s.words@.len() == words@.len(),
            s.settings.width == if max_len(s.words@) > w { max_len(s.words@) as int } else { w as int },
            s.settings.height == if max_len(s.words@) > h { max_len(s.words@) as int } else { h as int },
            s.settings.orientations@ == seq![
                Orientation::Horizontal,
                Orientation::Vertical,
                Orientation::Diagonal,
                Orientation::DiagonalUp,
            ],
            s.settings.max_attempts == 10,
            s.settings.max_grid_growth == 10,
            !s.settings.prefer_overlap,
            forall|r: int, c: int| 0 <= r < s.settings.height && 0 <= c < s.settings.width
                ==> #[trigger] grid_view(&s.puzzle.puzzle)[r][c] == blank(),
            s.puzzle.errors@.len() == 0,
            s.puzzle.words_not_placed@.len() == 0,
            s.puzzle.warnings@.len() == 0,
            s.filler_cells == 0,
    {
        let sorted = sort_words(words);
        proof {
            lemma_sort_len(words@);
            assert forall|j: int| 0 <= j < sorted@.len() implies (#[trigger] sorted@[j])@.len() <= i32::MAX by {
                lemma_sort_elements(words@, j);
            }
        }
        let mut m: usize = 0;
        let mut i: usize = 0;
        while i < sorted.len()
            invariant
                i <= sorted@.len(),
                m == max_len(sorted@.subrange(0, i as int)),
                forall|j: int| 0 <= j < sorted@.len() ==> (#[trigger] sorted@[j])@.len() <= i32::MAX,
                m <= i32::MAX,
            decreases sorted@.len() - i,
        {
            let n = sorted[i].as_str().unicode_len();
            proof {
                assert(sorted@.subrange(0, i + 1).drop_last() =~= sorted@.subrange(0, i as int));
            }
            if n > m {
                m = n;
            }
            i += 1;
        }
        assert(sorted@.subrange(0, sorted@.len() as int) =~= sorted@);
        let m = m as i32;
        let width = if m > w { m } else { w };
        let height = if m > h { m } else { h };
        let mut settings = Settings::default();
        settings.set_width(width);
        settings.set_height(height);
        WordSearch {
            words: sorted,
            settings,
            max_word_len: m,
            filler_cells: 0,
            puzzle: Puzzle::new(width, height),
        }
    }

    /// Like `new`, but refuses an empty word list, before any grid is built.
    pub fn try_new(words: &Vec<String>, w: i32, h: i32) -> (s: Option<WordSearch>)
        requires
            forall|j: int| 0 <= j < words@.len() ==> (#[trigger] words@[j])@.len() <= i32::MAX,
        ensures
            s.is_none() <==> words@.len() == 0,
            s.is_some() ==> s.unwrap().wf() && s.unwrap().words@ == sort_by_len(words@),
    {
        if words.len() == 0 {
            None
        } else {
            Some(WordSearch::new(words, w, h))
        }
    }
}


proof fn lemma_row_blanks_bound(row: Seq<char>, n: nat)
    ensures
        row_blanks(row, n) <= n,
    decreases n,
{
    if n > 0 {
        lemma_row_blanks_bound(row, (n - 1) as nat);
    }
}

proof fn lemma_grid_blanks_bound(g: Seq<Seq<char>>, w: int, n: nat)
    requires
        w >= 0,
        n <= g.len(),
        forall|r: int| 0 <= r < g.len() ==> #[trigger] g[r].len() == w,
    ensures
        grid_blanks(g, n) <= n * w,
    decreases n,
{
    if n > 0 {
        lemma_grid_blanks_bound(g, w, (n - 1) as nat);
        lemma_row_blanks_bound(g[n - 1], g[n - 1].len());
        assert((n - 1) * w + w == n * w) by (nonlinear_arith);
    }
}

/// A cell after filling: never blank, a letter of a word kept, a blank
/// given a lowercase letter.
pub open spec fn filled_from(before: char, after: char) -> bool {
    &&& after != blank()
    &&& before != blank() ==> after == before
    &&& before == blank() ==> is_lower(after)
}

/// Gives every blank cell of the `w` by `h` grid a random lowercase letter
/// and returns how many cells it filled.
pub fn fill_blanks<R: RandomSource>(grid: &mut Vec<Vec<char>>, rng: &mut R, w: i32, h: i32) -> (count: u64)
    requires
        grid_wf(grid_view(old(grid)), w as int, h as int),
        w >= 0,
        h >= 0,
    ensures
        grid_wf(grid_view(final(grid)), w as int, h as int),
        count == grid_blanks(grid_view(old(grid)), h as nat),
        forall|r: int, c: int| 0 <= r < h && 0 <= c < w ==>
            filled_from(grid_view(old(grid))[r][c], #[trigger] grid_view(final(grid))[r][c]),
{
    let ghost g0 = grid_view(grid);
    let ghost wi = w as int;
    let ghost hi = h as int;
    let mut count: u64 = 0;
    let mut i: usize = 0;
    proof {
        lemma_grid_blanks_bound(g0, wi, h as nat);
        assert(hi * wi <= 0x4000_0000_0000_0000) by (nonlinear_arith)
            requires 0 <= hi <= 0x8000_0000, 0 <= wi <= 0x8000_0000;
    }
    while i < grid.len()
        invariant
            grid_wf(grid_view(grid), wi, hi),
            grid_wf(g0, wi, hi),
            wi == w, hi == h, w >= 0,
            hi * wi <= 0x4000_0000_0000_0000,
            i <= h,
            count == grid_blanks(g0, i as nat),
            forall|r: int| i <= r < h ==> #[trigger] grid_view(grid)[r] == g0[r],
            forall|r: int, c: int| 0 <= r < i && 0 <= c < w ==>
                filled_from(g0[r][c], #[trigger] grid_view(grid)[r][c]),
        decreases h - i,
    {
        let mut j: usize = 0;
        let ghost row0 = g0[i as int];
        let ghost start = grid_view(grid);
        assert(grid_view(grid)[i as int] == g0[i as int]);
        proof {
            lemma_grid_blanks_bound(g0, wi, (i + 1) as nat);
            assert((i + 1) as int * wi <= hi * wi) by (nonlinear_arith)
                requires i + 1 <= hi, wi >= 0;
        }
        while j < grid[i].len()
            invariant
                grid_wf(grid_view(grid), wi, hi),
                grid_wf(g0, wi, hi),
                wi == w, hi == h, w >= 0,
                i < h,
                j <= w,
                row0 == g0[i as int],
                row0.len() == w,
                grid_blanks(g0, (i + 1) as nat) <= hi * wi,
                hi * wi <= 0x4000_0000_0000_0000,
                count == grid_blanks(g0, i as nat) + row_blanks(row0, j as nat),
                forall|r: int| 0 <= r < h && r != i ==> #[trigger] grid_view(grid)[r] == start[r],
                forall|r: int| i < r < h ==> #[trigger] start[r] == g0[r],
                forall|r: int, c: int| 0 <= r < i && 0 <= c < w ==>
                    filled_from(g0[r][c], #[trigger] start[r][c]),
                forall|c: int| j <= c < w ==> #[trigger] grid_view(grid)[i as int][c] == row0[c],
                forall|c: int| 0 <= c < j ==> filled_from(row0[c], #[trigger] grid_view(grid)[i as int][c]),
            decreases w - j,
        {
            let ghost gv = grid_view(grid);
            assert(grid@[i as int]@ == gv[i as int]);
            proof {
                lemma_row_blanks_mono(row0, (j + 1) as nat, w as nat);
            }
            if grid[i][j] == ' ' {
                let c = letter(rng.next_below(26));
                grid[i][j] = c;
                assert(grid_view(grid) =~= gv.update(i as int, gv[i as int].update(j as int, c)));
                count += 1;
            }
            j += 1;
        }
        proof {
            assert(grid@[i as int]@ == grid_view(grid)[i as int]);
            assert(j == w);
            assert(grid_blanks(g0, (i + 1) as nat) == grid_blanks(g0, i as nat) + row_blanks(row0, w as nat));
            assert forall|r: int, c: int| 0 <= r < i + 1 && 0 <= c < w implies
                filled_from(g0[r][c], #[trigger] grid_view(grid)[r][c]) by {
                if r < i {
                    assert(grid_view(grid)[r] == start[r]);
                }
            }
            assert forall|r: int| i + 1 <= r < h implies #[trigger] grid_view(grid)[r] == g0[r] by {
                assert(grid_view(grid)[r] == start[r]);
            }
        }
        i += 1;
    }
    count
}

proof fn lemma_row_blanks_zero(row: Seq<char>, n: nat)
    requires
        n <= row.len(),
    ensures
        row_blanks(row, n) == 0 <==> forall|c: int| 0 <= c < n ==> #[trigger] row[c] != blank(),
    decreases n,
{
    if n > 0 {
        lemma_row_blanks_zero(row, (n - 1) as nat);
    }
}

proof fn lemma_grid_blanks_zero(g: Seq<Seq<char>>, w: int, n: nat)
    requires
        n <= g.len(),
        forall|r: int| 0 <= r < g.len() ==> #[trigger] g[r].len() == w,
    ensures
        grid_blanks(g, n) == 0 <==> forall|r: int, c: int| 0 <= r < n && 0 <= c < w ==> #[trigger] g[r][c] != blank(),
    decreases n,
{
    if n > 0 {
        lemma_grid_blanks_zero(g, w, (n - 1) as nat);
        lemma_row_blanks_zero(g[n - 1], g[n - 1].len());
        if grid_blanks(g, n) == 0 {
            assert forall|r: int, c: int| 0 <= r < n && 0 <= c < w implies #[trigger] g[r][c] != blank() by {
                if r == n - 1 {
                    assert(g[n - 1][c] != blank());
                }
            }
        }
        if forall|r: int, c: int| 0 <= r < n && 0 <= c < w ==> #[trigger] g[r][c] != blank() {
            assert forall|c: int| 0 <= c < g[n - 1].len() implies #[trigger] g[n - 1][c] != blank() by {
                assert(g[n - 1][c] != blank());
            }
        }
    }
}

/// The filler count of a `w` by `h` grid lies between none and every cell,
/// so the share of cells holding word letters lies between 0 and 100
/// percent; it is none, a full share of word letters, exactly when no cell
/// is blank.
pub proof fn lemma_filler_count_bounds(g: Seq<Seq<char>>, w: int, h: int)
    requires
        grid_wf(g, w, h),
        w >= 0,
        h >= 0,
    ensures
        0 <= grid_blanks(g, h as nat) <= w * h,
        grid_blanks(g, h as nat) == 0 <==> forall|r: int, c: int| 0 <= r < h && 0 <= c < w ==> #[trigger] g[r][c] != blank(),
{
    lemma_grid_blanks_bound(g, w, h as nat);
    assert(h * w == w * h) by (nonlinear_arith);
    lemma_grid_blanks_zero(g, w, h as nat);
}

proof fn lemma_row_blanks_mono(row: Seq<char>, a: nat, b: nat)
    requires
        a <= b,
    ensures
        row_blanks(row, a) <= row_blanks(row, b),
    decreases b,
{
    if a < b {
        lemma_row_blanks_mono(row, a, (b - 1) as nat);
    }
}

impl WordSearch {
    /// One attempt: places every word, shortest first, on a fresh blank
    /// grid. On the first word with no spot the attempt is abandoned, that
    /// word is recorded as not placed, and nothing is returned.
    fn fill_puzzle<R: RandomSource>(&mut self, rng: &mut R) -> (r: Option<Vec<Vec<char>>>)
        requires
            old(self).wf(),
        ensures
            final(self).wf(),
            final(self).words == old(self).words,
            final(self).settings == old(self).settings,
            final(self).max_word_len == old(self).max_word_len,
            final(self).filler_cells == old(self).filler_cells,
            final(self).puzzle.puzzle == old(self).puzzle.puzzle,
            final(self).puzzle.errors == old(self).puzzle.errors,
            final(self).puzzle.warnings == old(self).puzzle.warnings,
            r is Some ==> grid_wf(grid_view(&r->0), old(self).settings.width as int, old(self).settings.height as int),
            r is Some ==> letters_on_paths(grid_view(&r->0), old(self).words@, old(self).words@.len() as int,
                old(self).settings.orientations@, old(self).settings.width as int, old(self).settings.height as int),
            old(self).settings.orientations@.len() == 0 ==> r is None,
            old(self).words@.len() == 1 && old(self).settings.orientations@.len() > 0
                && old(self).settings.width > 0 && old(self).settings.height > 0 ==> r is Some,
            r is None ==> final(self).puzzle.words_not_placed@.len() == old(self).puzzle.words_not_placed@.len() + 1,
            r is None ==> final(self).puzzle.words_not_placed@.drop_last() == old(self).puzzle.words_not_placed@,
            r is None ==> exists|i: int, g: Seq<Seq<char>>| {
                &&& 0 <= i < old(self).words@.len()
                &&& final(self).puzzle.words_not_placed@.last()@ == old(self).words@[i]@
                &&& grid_wf(g, old(self).settings.width as int, old(self).settings.height as int)
                &&& !#[trigger] has_spot(old(self).words@[i]@, g, old(self).settings.orientations@,
                    old(self).settings.width as int, old(self).settings.height as int)
                &&& no_blank_letters(old(self).words@) ==> forall|j: int| 0 <= j < i ==>
                    shows_word(g, #[trigger] old(self).words@[j]@, old(self).settings.orientations@,
                        old(self).settings.width as int, old(self).settings.height as int)
            },
            r is Some ==> final(self).puzzle.words_not_placed == old(self).puzzle.words_not_placed,
            r is Some && no_blank_letters(old(self).words@) ==> forall|j: int| 0 <= j < old(self).words@.len() ==>
                shows_word(grid_view(&r->0), #[trigger] old(self).words@[j]@, old(self).settings.orientations@,
                    old(self).settings.width as int, old(self).settings.height as int),
    {
        let mut grid = blank_grid(self.settings.width as usize, self.settings.height as usize);
        let mut i: usize = 0;
        while i < self.words.len()
            invariant
                self.wf(),
                *self == *old(self),
                i <= self.words@.len(),
                self.settings.orientations@.len() == 0 ==> i == 0,
                i == 0 ==> forall|r: int, c: int| 0 <= r < self.settings.height && 0 <= c < self.settings.width
                    ==> #[trigger] grid_view(&grid)[r][c] == blank(),
                letters_on_paths(grid_view(&grid), self.words@, i as int, self.settings.orientations@,
                    self.settings.width as int, self.settings.height as int),
                grid_wf(grid_view(&grid), self.settings.width as int, self.settings.height as int),
                no_blank_letters(self.words@) ==> forall|j: int| 0 <= j < i ==>
                    shows_word(grid_view(&grid), #[trigger] self.words@[j]@, self.settings.orientations@,
                        self.settings.width as int, self.settings.height as int),
            decreases self.words@.len() - i,
        {
            let ghost g0 = grid_view(&grid);
            if place_word_in_puzzle(self.words[i].as_str(), &mut grid, &self.settings, rng) {
                proof {
                    let ghost word = self.words@[i as int]@;
                    let ghost os = self.settings.orientations@;
                    let ghost (w, h) = (self.settings.width as int, self.settings.height as int);
                    let (o, x, y) = choose|o: Orientation, x: int, y: int| {
                        &&& #[trigger] is_best_spot(word, g0, os, w, h, o, x, y)
                        &&& grid_view(&grid) == placed(word, g0, x, y, o)
                    };
                    lemma_placed_spot(word, g0, os, w, h, o, x, y);
                    lemma_placed_changes_only_path(word, g0, os, w, h, o, x, y);
                    let ghost g1 = grid_view(&grid);
                    assert forall|r: int, c: int| 0 <= r < h && 0 <= c < w && #[trigger] g1[r][c] != blank() implies
                        exists|j: int, o2: Orientation, x2: int, y2: int| {
                            &&& 0 <= j < i + 1
                            &&& os.contains(o2)
                            &&& 0 <= x2 < w
                            &&& 0 <= y2 < h
                            &&& fits(o2, x2, y2, h, w, self.words@[j]@.len() as int)
                            &&& #[trigger] on_path(o2, x2, y2, self.words@[j]@.len() as int, c, r)
                        } by {
                        if g0[r][c] != blank() {
                            assert(g1[r][c] == g0[r][c]);
                            assert(g0[r][c] != blank());
                        } else {
                            assert(on_path(o, x, y, self.words@[i as int]@.len() as int, c, r));
                        }
                    }
                }
                proof {
                    if no_blank_letters(self.words@) {
                        let ghost word = self.words@[i as int]@;
                        let ghost os = self.settings.orientations@;
                        let ghost (w, h) = (self.settings.width as int, self.settings.height as int);
                        let (o, x, y) = choose|o: Orientation, x: int, y: int| {
                            &&& #[trigger] is_best_spot(word, g0, os, w, h, o, x, y)
                            &&& grid_view(&grid) == placed(word, g0, x, y, o)
                        };
                        lemma_placed_spot(word, g0, os, w, h, o, x, y);
                        assert forall|j: int| 0 <= j < i + 1 implies
                            shows_word(grid_view(&grid), #[trigger] self.words@[j]@, os, w, h) by {
                            assert forall|t: int| 0 <= t < self.words@[j]@.len() implies #[trigger] self.words@[j]@[t] != blank() by {}
                            if j < i {
                                lemma_shows_word_kept(g0, grid_view(&grid), self.words@[j]@, os, w, h);
                            } else {
                                assert(word_at(grid_view(&grid), word, x, y, o));
                            }
                        }
                    }
                }
                i += 1;
            } else {
                proof {
                    if self.words@.len() == 1 && self.settings.orientations@.len() > 0
                        && self.settings.width > 0 && self.settings.height > 0 {
                        lemma_max_len_bounds(self.words@, 0);
                        lemma_blank_grid_has_spot(self.words@[0]@, g0, self.settings.orientations@,
                            self.settings.width as int, self.settings.height as int);
                    }
                }
                let word = self.words[i].clone();
                self.puzzle.add_words_not_placed(word.as_str());
                proof {
                    assert(has_spot(old(self).words@[i as int]@, g0, old(self).settings.orientations@,
                        old(self).settings.width as int, old(self).settings.height as int) == false);
                }
                return None;
            }
        }
        Some(grid)
    }

    /// Resizes the grid to at least `w` by `h`, never below the longest
    /// word, and starts again from a blank puzzle.
    fn update_size(&mut self, w: i32, h: i32)
        requires
            old(self).wf(),
        ensures
            final(self).wf(),
            final(self).words == old(self).words,
            final(self).max_word_len == old(self).max_word_len,
            final(self).settings.width == if old(self).max_word_len > w { old(self).max_word_len } else { w },
            final(self).settings.height == if old(self).max_word_len > h { old(self).max_word_len } else { h },
            final(self).settings.orientations == old(self).settings.orientations,
            final(self).settings.max_attempts == old(self).settings.max_attempts,
            final(self).settings.max_grid_growth == old(self).settings.max_grid_growth,
            final(self).settings.prefer_overlap == old(self).settings.prefer_overlap,
            final(self).filler_cells == 0,
            final(self).puzzle.errors@.len() == 0,
            final(self).puzzle.words_not_placed@.len() == 0,
            final(self).puzzle.warnings@.len() == 0,
            forall|r: int, c: int| 0 <= r < final(self).settings.height && 0 <= c < final(self).settings.width
                ==> #[trigger] grid_view(&final(self).puzzle.puzzle)[r][c] == blank(),
    {
        let m = self.max_word_len;
        let width = if m > w { m } else { w };
        let height = if m > h { m } else { h };
        self.settings.set_width(width);
        self.settings.set_height(height);
        self.puzzle = Puzzle::new(self.settings.width, self.settings.height);
        self.filler_cells = 0;
    }

    /// Builds the puzzle: one attempt per grid size, growing the grid by one
    /// row and one column after each failed attempt, until every word is
    /// placed or the grid may grow no more. Remaining blank cells get random
    /// lowercase letters. Returns whether the puzzle is complete; when it is
    /// not, the last error names the grid size last tried.
    pub fn create<R: RandomSource>(&mut self, rng: &mut R) -> (complete: bool)
        requires
            old(self).wf(),
            old(self).settings.width as int + old(self).settings.max_grid_growth as int <= i32::MAX,
            old(self).settings.height as int + old(self).settings.max_grid_growth as int <= i32::MAX,
        ensures
            final(self).wf(),
            final(self).words == old(self).words,
            final(self).max_word_len == old(self).max_word_len,
            final(self).settings.orientations == old(self).settings.orientations,
            final(self).settings.max_attempts == old(self).settings.max_attempts,
            final(self).settings.max_grid_growth == old(self).settings.max_grid_growth,
            final(self).settings.width - old(self).settings.width == final(self).settings.height - old(self).settings.height,
            final(self).settings.width >= old(self).settings.width,
            final(self).settings.width - old(self).settings.width <= if old(self).settings.max_grid_growth > 0 { old(self).settings.max_grid_growth as int } else { 0 },
            !complete ==> {
                &&& final(self).puzzle.errors@.len() > 0
                &&& final(self).puzzle.errors@.drop_last() == if final(self).settings.width == old(self).settings.width {
                    old(self).puzzle.errors@
                } else {
                    Seq::<String>::empty()
                }
                &&& final(self).puzzle.errors@.last()@ == growth_error(final(self).settings.width as nat, final(self).settings.height as nat)
                &&& final(self).settings.width - old(self).settings.width == if old(self).settings.max_grid_growth > 0 { old(self).settings.max_grid_growth as int } else { 0 }
                &&& old(self).settings.max_attempts > 1 ==> final(self).puzzle.words_not_placed@.len() == 1
            },
            complete ==> {
                &&& final(self).puzzle.words_not_placed@.len() == 0
                &&& final(self).puzzle.errors@ == if final(self).settings.width == old(self).settings.width {
                    old(self).puzzle.errors@
                } else {
                    Seq::<String>::empty()
                }
                &&& final(self).filler_cells <= final(self).settings.width * final(self).settings.height
                &&& forall|r: int, c: int| 0 <= r < final(self).settings.height && 0 <= c < final(self).settings.width
                    ==> #[trigger] grid_view(&final(self).puzzle.puzzle)[r][c] != blank()
                &&& exists|p: Seq<Seq<char>>| {
                    &&& #[trigger] filled_grid(p, grid_view(&final(self).puzzle.puzzle),
                        final(self).settings.width as int, final(self).settings.height as int)
                    &&& final(self).filler_cells == grid_blanks(p, final(self).settings.height as nat)
                    &&& no_blank_letters(old(self).words@) ==> forall|j: int| 0 <= j < final(self).words@.len() ==>
                        shows_word(p, #[trigger] final(self).words@[j]@, final(self).settings.orientations@,
                            final(self).settings.width as int, final(self).settings.height as int)
                }
            },
            old(self).settings.orientations@.len() == 0 || old(self).settings.max_attempts <= 1 ==> !complete,
            old(self).words@.len() == 1 && old(self).settings.orientations@.len() > 0 && old(self).settings.max_attempts > 1
                && old(self).settings.width > 0 && old(self).settings.height > 0 ==> complete,
            complete && no_blank_letters(old(self).words@) ==> forall|j: int| 0 <= j < final(self).words@.len() ==>
                shows_word(grid_view(&final(self).puzzle.puzzle), #[trigger] final(self).words@[j]@,
                    final(self).settings.orientations@, final(self).settings.width as int, final(self).settings.height as int),
    {
        let ghost w0 = self.settings.width as int;
        let ghost h0 = self.settings.height as int;
        let ghost words0 = self.words;
        let mut grid_growths: i64 = 0;
        let mut attempts: i32 = 0;
        loop
            invariant
                self.wf(),
                self.words == words0,
                self.words == old(self).words,
                self.max_word_len == old(self).max_word_len,
                self.settings.orientations == old(self).settings.orientations,
                self.settings.max_attempts == old(self).settings.max_attempts,
                self.settings.max_grid_growth == old(self).settings.max_grid_growth,
                self.settings.width == w0 + grid_growths,
                self.settings.height == h0 + grid_growths,
                w0 == old(self).settings.width,
                h0 == old(self).settings.height,
                w0 + old(self).settings.max_grid_growth <= i32::MAX,
                h0 + old(self).settings.max_grid_growth <= i32::MAX,
                0 <= grid_growths,
                grid_growths == 0 || grid_growths <= self.settings.max_grid_growth,
                attempts == 0,
                self.puzzle.errors@ == if grid_growths == 0 { old(self).puzzle.errors@ } else { Seq::<String>::empty() },
                self.settings.width > 0 || grid_growths == 0,
            decreases (if grid_growths <= self.settings.max_grid_growth { self.settings.max_grid_growth - grid_growths + 1 } else { 0 }),
        {
            attempts += 1;
            let mut result: Option<Vec<Vec<char>>> = None;
            if attempts < self.settings.max_attempts {
                self.puzzle.words_not_placed = Vec::new();
                result = self.fill_puzzle(rng);
            }
            match result {
                None => {
                    grid_growths += 1;
                    if grid_growths > self.settings.max_grid_growth as i64 {
                        let msg = growth_error_message(self.settings.width, self.settings.height);
                        let ghost before = self.puzzle.errors@;
                        self.puzzle.add_errors(msg.as_str());
                        assert(self.puzzle.errors@.drop_last() == before);
                        return false;
                    }
                    self.update_size(self.settings.width + 1, self.settings.height + 1);
                    attempts = 0;
                }
                Some(mut grid) => {
                    let ghost before = grid_view(&grid);
                    let count = fill_blanks(&mut grid, rng, self.settings.width, self.settings.height);
                    proof {
                        lemma_grid_blanks_bound(before, self.settings.width as int, self.settings.height as nat);
                        if no_blank_letters(self.words@) {
                            let ghost (w, h) = (self.settings.width as int, self.settings.height as int);
                            assert forall|r: int, c: int| 0 <= r < h && 0 <= c < w && before[r][c] != blank()
                                implies #[trigger] grid_view(&grid)[r][c] == before[r][c] by {
                                assert(filled_from(before[r][c], grid_view(&grid)[r][c]));
                            }
                            assert forall|j: int| 0 <= j < self.words@.len() implies
                                shows_word(grid_view(&grid), #[trigger] self.words@[j]@, self.settings.orientations@, w, h) by {
                                assert forall|t: int| 0 <= t < self.words@[j]@.len() implies #[trigger] self.words@[j]@[t] != blank() by {}
                                assert(shows_word(before, self.words@[j]@, self.settings.orientations@, w, h));
                                lemma_shows_word_kept(before, grid_view(&grid), self.words@[j]@, self.settings.orientations@, w, h);
                            }
                        }
                    }
                    self.filler_cells = count;
                    self.puzzle.puzzle = grid;
                    proof {
                        let ghost (w, h) = (self.settings.width as int, self.settings.height as int);
                        assert(filled_grid(before, grid_view(&self.puzzle.puzzle), w, h));
                    }
                    return true;
                }
            }
        }
    }
}

/// Every word of a well-formed session fits across and down the grid.
pub proof fn lemma_grid_covers_longest(ws: &WordSearch)
    requires
        ws.wf(),
    ensures
        forall|j: int| 0 <= j < ws.words@.len() ==> {
            &&& (#[trigger] ws.words@[j])@.len() <= ws.settings.width
            &&& ws.words@[j]@.len() <= ws.settings.height
        },
{
    assert forall|j: int| 0 <= j < ws.words@.len() implies {
        &&& (#[trigger] ws.words@[j])@.len() <= ws.settings.width
        &&& ws.words@[j]@.len() <= ws.settings.height
    } by {
        lemma_max_len_bounds(ws.words@, j);
    }
}

proof fn lemma_first_longer_split(t: Seq<String>, n: nat, i: int)
    requires
        0 <= i < t.len(),
        forall|a: int, b: int| 0 <= a < b < t.len() ==> (#[trigger] t[a])@.len() <= (#[trigger] t[b])@.len(),
    ensures
        i < first_longer(t, n) ==> t[i]@.len() <= n,
        i >= first_longer(t, n) ==> t[i]@.len() > n,
    decreases t.len(),
{
    lemma_first_longer_bound(t, n);
    if t[0]@.len() > n {
        if i > 0 {
            assert(t[0]@.len() <= t[i]@.len());
        }
    } else if i > 0 {
        let u = t.drop_first();
        assert forall|a: int, b: int| 0 <= a < b < u.len() implies (#[trigger] u[a])@.len() <= (#[trigger] u[b])@.len() by {
            assert(u[a] == t[a + 1] && u[b] == t[b + 1]);
        }
        lemma_first_longer_split(u, n, i - 1);
    }
}

/// Words sorted by `sort_by_len` never get longer to shorter.
pub proof fn lemma_sorted_by_len(words: Seq<String>)
    ensures
        forall|a: int, b: int| 0 <= a < b < sort_by_len(words).len() ==>
            (#[trigger] sort_by_len(words)[a])@.len() <= (#[trigger] sort_by_len(words)[b])@.len(),
    decreases words.len(),
{
    if words.len() > 0 {
        let t = sort_by_len(words.drop_last());
        let n = words.last()@.len();
        let p = first_longer(t, n) as int;
        lemma_sorted_by_len(words.drop_last());
        lemma_first_longer_bound(t, n);
        let r = sort_by_len(words);
        assert(r == t.insert(p, words.last()));
        assert forall|a: int, b: int| 0 <= a < b < r.len() implies (#[trigger] r[a])@.len() <= (#[trigger] r[b])@.len() by {
            if a < p && b < p {
                assert(r[a] == t[a] && r[b] == t[b]);
            } else if a < p && b == p {
                lemma_first_longer_split(t, n, a);
            } else if a < p {
                assert(r[a] == t[a] && r[b] == t[b - 1]);
            } else if a == p {
                lemma_first_longer_split(t, n, b - 1);
            } else {
                assert(r[a] == t[a - 1] && r[b] == t[b - 1]);
            }
        }
    }
}

proof fn lemma_sort_elements(words: Seq<String>, j: int)
    requires
        0 <= j < sort_by_len(words).len(),
    ensures
        exists|k: int| 0 <= k < words.len() && sort_by_len(words)[j] == words[k],
    decreases words.len(),
{
    lemma_sort_len(words);
    if words.len() > 0 {
        let t = sort_by_len(words.drop_last());
        let p = first_longer(t, words.last()@.len()) as int;
        lemma_sort_len(words.drop_last());
        lemma_first_longer_bound(t, words.last()@.len());
        if j < p {
            lemma_sort_elements(words.drop_last(), j);
        } else if j > p {
            lemma_sort_elements(words.drop_last(), j - 1);
        } else {
            assert(sort_by_len(words)[j] == words[words.len() - 1]);
        }
        if j != p {
            let jj = if j < p { j } else { j - 1 };
            let k = choose|k: int| 0 <= k < words.drop_last().len() && t[jj] == words.drop_last()[k];
            assert(sort_by_len(words)[j] == words[k]);
        }
    }
}

proof fn lemma_sort_len(words: Seq<String>)
    ensures
        sort_by_len(words).len() == words.len(),
    decreases words.len(),
{
    if words.len() > 0 {
        lemma_sort_len(words.drop_last());
        lemma_first_longer_bound(sort_by_len(words.drop_last()), words.last()@.len());
    }
}

proof fn lemma_first_longer_bound(t: Seq<String>, n: nat)
    ensures
        first_longer(t, n) <= t.len(),
    decreases t.len(),
{
    if t.len() > 0 {
        lemma_first_longer_bound(t.drop_first(), n);
    }
}

} // verus!
