use vstd::prelude::*;
use vstd::string::StrSliceExecFns;
use crate::geometry::{
    Orientation, step, fits, next_scan, get_orientation, check_orientation, skip_orientation,
    lemma_fits_stays_in_grid, lemma_skip_passes_no_fit,
};
use crate::grid::{blank, grid_view, grid_wf};
use crate::location::Location;
use crate::settings::Settings;
use crate::random::RandomSource;

verus! {

/// Overlap of the first `n` letters of `word` placed at `(x, y)` along `o`:
/// the number of letters that meet an equal letter, or -1 once one meets a
/// different letter.
pub open spec fn overlap_upto(
    word: Seq<char>,
    g: Seq<Seq<char>>,
    x: int,
    y: int,
    o: Orientation,
    n: nat,
) -> int
    decreases n,
{
    if n == 0 {
        0
    } else {
        let prev = overlap_upto(word, g, x, y, o, (n - 1) as nat);
        let cell = step(o, x, y, n - 1);
        let c = g[cell.1][cell.0];
        if prev < 0 {
            -1
        } else if c == blank() {
            prev
        } else if c == word[n - 1] {
            prev + 1
        } else {
            -1
        }
    }
}

/// Overlap of the whole word placed at `(x, y)` along `o`; -1 on a conflict.
pub open spec fn overlap_of(word: Seq<char>, g: Seq<Seq<char>>, x: int, y: int, o: Orientation) -> int {
    overlap_upto(word, g, x, y, o, word.len())
}

/// `word` may be placed at `(x, y)` along `o`: the direction is allowed, the
/// origin lies in the `w` by `h` grid, the word fits, and no letter conflicts.
pub open spec fn is_spot(
    word: Seq<char>,
    g: Seq<Seq<char>>,
    os: Seq<Orientation>,
    w: int,
    h: int,
    o: Orientation,
    x: int,
    y: int,
) -> bool {
    &&& os.contains(o)
    &&& 0 <= x < w
    &&& 0 <= y < h
    &&& fits(o, x, y, h, w, word.len() as int)
    &&& overlap_of(word, g, x, y, o) >= 0
}

/// A spot whose overlap no other spot exceeds.
pub open spec fn is_best_spot(
    word: Seq<char>,
    g: Seq<Seq<char>>,
    os: Seq<Orientation>,
    w: int,
    h: int,
    o: Orientation,
    x: int,
    y: int,
) -> bool {
    &&& is_spot(word, g, os, w, h, o, x, y)
    &&& forall|o2: Orientation, x2: int, y2: int|
        #[trigger] is_spot(word, g, os, w, h, o2, x2, y2) ==> overlap_of(word, g, x2, y2, o2)
            <= overlap_of(word, g, x, y, o)
}

pub open spec fn has_spot(
    word: Seq<char>,
    g: Seq<Seq<char>>,
    os: Seq<Orientation>,
    w: int,
    h: int,
) -> bool {
    exists|o: Orientation, x: int, y: int| is_spot(word, g, os, w, h, o, x, y)
}

proof fn lemma_overlap_bounds(word: Seq<char>, g: Seq<Seq<char>>, x: int, y: int, o: Orientation, n: nat)
    ensures
        -1 <= overlap_upto(word, g, x, y, o, n) <= n,
    decreases n,
{
    if n > 0 {
        lemma_overlap_bounds(word, g, x, y, o, (n - 1) as nat);
    }
}

proof fn lemma_overlap_conflict_stays(
    word: Seq<char>,
    g: Seq<Seq<char>>,
    x: int,
    y: int,
    o: Orientation,
    n: nat,
    m: nat,
)
    requires
        overlap_upto(word, g, x, y, o, n) < 0,
        n <= m,
    ensures
        overlap_upto(word, g, x, y, o, m) == -1,
    decreases m - n,
{
    lemma_overlap_bounds(word, g, x, y, o, n);
    if n < m {
        lemma_overlap_conflict_stays(word, g, x, y, o, n, (m - 1) as nat);
    }
}

/// The overlap of `word` placed at `(x, y)` along `orientation` in the `w`
/// by `h` grid, or -1 where a letter would meet a different one.
pub fn calculate_overlap(
    word: &str,
    grid: &Vec<Vec<char>>,
    x: i32,
    y: i32,
    orientation: &Orientation,
    h: i32,
    w: i32,
) -> (r: i32)
    requires
        grid_wf(grid_view(grid), w as int, h as int),
        0 <= x < w,
        0 <= y < h,
        fits(*orientation, x as int, y as int, h as int, w as int, word@.len() as int),
    ensures
        r == overlap_of(word@, grid_view(grid), x as int, y as int, *orientation),
{
    let ghost g = grid_view(grid);
    let len = word.unicode_len();
    let mut overlap: i32 = 0;
    let mut i: usize = 0;
    while i < len
        invariant
            len == word@.len(),
            len <= i32::MAX,
            i <= len,
            0 <= overlap <= i,
            overlap == overlap_upto(word@, g, x as int, y as int, *orientation, i as nat),
            g == grid_view(grid),
            grid_wf(g, w as int, h as int),
            0 <= x < w,
            0 <= y < h,
            fits(*orientation, x as int, y as int, h as int, w as int, len as int),
        decreases len - i,
    {
        proof {
            lemma_fits_stays_in_grid(*orientation, x as int, y as int, h as int, w as int, len as int, i as int);
        }
        let p = get_orientation(orientation, x, y, i as i32);
        assert(grid@[p.y as int]@ == g[p.y as int]);
        let c = grid[p.y as usize][p.x as usize];
        assert(c == g[p.y as int][p.x as int]);
        if c != ' ' {
            if c == word.get_char(i) {
                overlap += 1;
            } else {
                proof {
                    lemma_overlap_conflict_stays(word@, g, x as int, y as int, *orientation, (i + 1) as nat, len as nat);
                }
                return -1;
            }
        }
        i += 1;
    }
    overlap
}

/// Whether the first `j` locations of `locs` include one at `(x, y)` along `o`.
pub open spec fn lists_spot(locs: Seq<Location>, j: int, o: Orientation, x: int, y: int) -> bool {
    exists|i: int| 0 <= i < j && (#[trigger] locs[i]).orientation == o && locs[i].x == x && locs[i].y == y
}

/// Origin `(x2, y2)` under the orientation of index `k2` comes before
/// origin `(x, y)` under the one of index `k` in the scan.
pub open spec fn scanned_before(k: int, x: int, y: int, k2: int, x2: int, y2: int) -> bool {
    k2 < k || (k2 == k && (y2 < y || (y2 == y && x2 < x)))
}

/// Scan position `(k1, y1, x1)` (direction index, row, column) comes
/// before `(k2, y2, x2)`.
pub open spec fn key_lt(k1: int, y1: int, x1: int, k2: int, y2: int, x2: int) -> bool {
    k1 < k2 || (k1 == k2 && (y1 < y2 || (y1 == y2 && x1 < x2)))
}

/// `a` comes before `b` in a scan of the directions `os`, each direction
/// scanned row by row.
pub open spec fn scan_before(os: Seq<Orientation>, a: Location, b: Location) -> bool {
    exists|ka: int, kb: int| {
        &&& 0 <= ka < os.len()
        &&& 0 <= kb < os.len()
        &&& os[ka] == a.orientation
        &&& os[kb] == b.orientation
        &&& #[trigger] key_lt(ka, a.y as int, a.x as int, kb, b.y as int, b.x as int)
    }
}

/// All the best spots for `word` in `grid`: every location returned is a
/// spot whose overlap no spot exceeds, and every such spot is returned.
/// None is returned exactly when `word` has no spot at all.
pub fn find_best_locations(word: &str, grid: &Vec<Vec<char>>, settings: &Settings) -> (r: Vec<Location>)
    requires
        grid_wf(grid_view(grid), settings.width as int, settings.height as int),
        settings.width >= 0,
        settings.height >= 0,
    ensures
        forall|i: int|
            0 <= i < r@.len() ==> {
                &&& is_best_spot(
                    word@,
                    grid_view(grid),
                    settings.orientations@,
                    settings.width as int,
                    settings.height as int,
                    #[trigger] r@[i].orientation,
                    r@[i].x as int,
                    r@[i].y as int,
                )
                &&& r@[i].overlap == overlap_of(word@, grid_view(grid), r@[i].x as int, r@[i].y as int, r@[i].orientation)
                &&& r@[i].word@ == word@
            },
        forall|o: Orientation, x: int, y: int|
            #[trigger] is_best_spot(
                word@,
                grid_view(grid),
                settings.orientations@,
                settings.width as int,
                settings.height as int,
                o,
                x,
                y,
            ) ==> lists_spot(r@, r@.len() as int, o, x, y),
        forall|i: int, j: int| 0 <= i < j < r@.len() ==> scan_before(settings.orientations@, #[trigger] r@[i], #[trigger] r@[j]),
        settings.orientations@.no_duplicates() ==> forall|i: int, j: int| 0 <= i < j < r@.len() ==>
            !(#[trigger] r@[i].orientation == #[trigger] r@[j].orientation && r@[i].x == r@[j].x && r@[i].y == r@[j].y),
        r@.len() > 0 <==> has_spot(
            word@,
            grid_view(grid),
            settings.orientations@,
            settings.width as int,
            settings.height as int,
        ),
{
    let ghost g = grid_view(grid);
    let ghost os = settings.orientations@;
    let h = settings.height;
    let w = settings.width;
    let ghost wi = w as int;
    let ghost hi = h as int;
    let mut locations: Vec<Location> = Vec::new();
    let len = word.unicode_len();
    if len > i32::MAX as usize || w == 0 || h == 0 {
        proof {
            assert forall|o: Orientation, x: int, y: int| !is_spot(word@, g, os, wi, hi, o, x, y) by {}
        }
        return locations;
    }
    let l = len as i32;
    let mut max_overlap: i32 = 0;
    let mut k: usize = 0;
    let ghost mut ks: Seq<int> = Seq::empty();
    while k < settings.orientations.len()
        invariant
            g == grid_view(grid),
            os == settings.orientations@,
            grid_wf(g, wi, hi),
            wi == w, hi == h, w > 0, h > 0,
            l == word@.len(),
            k <= os.len(),
            max_overlap >= 0,
            forall|j: int| 0 <= j < locations@.len() ==> {
                &&& is_spot(word@, g, os, wi, hi, #[trigger] locations@[j].orientation, locations@[j].x as int, locations@[j].y as int)
                &&& locations@[j].overlap == overlap_of(word@, g, locations@[j].x as int, locations@[j].y as int, locations@[j].orientation)
                &&& locations@[j].overlap <= max_overlap
                &&& locations@[j].word@ == word@
            },
            max_overlap > 0 ==> exists|j: int| 0 <= j < locations@.len() && (#[trigger] locations@[j]).overlap == max_overlap,
            forall|k2: int, x2: int, y2: int|
                0 <= k2 < k && #[trigger] is_spot(word@, g, os, wi, hi, os[k2], x2, y2) ==> {
                    &&& overlap_of(word@, g, x2, y2, os[k2]) <= max_overlap
                    &&& (overlap_of(word@, g, x2, y2, os[k2]) >= max_overlap ==> lists_spot(locations@, locations@.len() as int, os[k2], x2, y2))
                },
            ks.len() == locations@.len(),
            forall|j: int| 0 <= j < ks.len() ==> 0 <= #[trigger] ks[j] < k && os[ks[j]] == locations@[j].orientation,
            forall|a: int, b: int| 0 <= a < b < ks.len() ==>
                key_lt(#[trigger] ks[a], locations@[a].y as int, locations@[a].x as int, #[trigger] ks[b], locations@[b].y as int, locations@[b].x as int),
        decreases os.len() - k,
    {
        let o = settings.orientations[k as usize];
        let mut x: i32 = 0;
        let mut y: i32 = 0;
        while y < h
            invariant
                g == grid_view(grid),
                os == settings.orientations@,
                grid_wf(g, wi, hi),
                wi == w, hi == h, w > 0, h > 0,
                l == word@.len(),
                k < os.len(),
                o == os[k as int],
                0 <= x < w,
                0 <= y,
                max_overlap >= 0,
                forall|j: int| 0 <= j < locations@.len() ==> {
                    &&& is_spot(word@, g, os, wi, hi, #[trigger] locations@[j].orientation, locations@[j].x as int, locations@[j].y as int)
                    &&& locations@[j].overlap == overlap_of(word@, g, locations@[j].x as int, locations@[j].y as int, locations@[j].orientation)
                    &&& locations@[j].overlap <= max_overlap
                    &&& locations@[j].word@ == word@
                },
                max_overlap > 0 ==> exists|j: int| 0 <= j < locations@.len() && (#[trigger] locations@[j]).overlap == max_overlap,
                forall|k2: int, x2: int, y2: int|
                    0 <= k2 < os.len() && scanned_before(k as int, x as int, y as int, k2, x2, y2)
                        && #[trigger] is_spot(word@, g, os, wi, hi, os[k2], x2, y2) ==> {
                        &&& overlap_of(word@, g, x2, y2, os[k2]) <= max_overlap
                        &&& (overlap_of(word@, g, x2, y2, os[k2]) >= max_overlap ==> lists_spot(locations@, locations@.len() as int, os[k2], x2, y2))
                    },
                ks.len() == locations@.len(),
                forall|j: int| 0 <= j < ks.len() ==> 0 <= #[trigger] ks[j] < os.len() && os[ks[j]] == locations@[j].orientation
                    && key_lt(ks[j], locations@[j].y as int, locations@[j].x as int, k as int, y as int, x as int),
                forall|a: int, b: int| 0 <= a < b < ks.len() ==>
                    key_lt(#[trigger] ks[a], locations@[a].y as int, locations@[a].x as int, #[trigger] ks[b], locations@[b].y as int, locations@[b].x as int),
            decreases (if y < h { h - y } else { 0 }), w - x,
        {
            if check_orientation(&o, x, y, h, w, l) {
                let overlap = calculate_overlap(word, grid, x, y, &o, h, w);
                if overlap >= max_overlap {
                    let ghost old_locs = locations@;
                    max_overlap = overlap;
                    locations.push(Location::from(x, y, overlap, &o, word));
                    proof {
                        ks = ks.push(k as int);
                    }
                    proof {
                        assert(os.contains(o)) by { assert(os[k as int] == o); }
                        assert(locations@[old_locs.len() as int] == locations@.last());
                        assert forall|k2: int, x2: int, y2: int|
                            0 <= k2 < os.len() && lists_spot(old_locs, old_locs.len() as int, os[k2], x2, y2)
                            implies lists_spot(locations@, locations@.len() as int, os[k2], x2, y2) by {
                            let i = choose|i: int| 0 <= i < old_locs.len() && (#[trigger] old_locs[i]).orientation == os[k2] && old_locs[i].x == x2 && old_locs[i].y == y2;
                            assert(locations@[i] == old_locs[i]);
                        }
                        assert(lists_spot(locations@, locations@.len() as int, o, x as int, y as int)) by {
                            let i = old_locs.len() as int;
                            assert(locations@[i].orientation == o);
                        }
                    }
                }
                x += 1;
                if x >= w {
                    x = 0;
                    y += 1;
                }
            } else {
                let ghost (x0, y0) = (x as int, y as int);
                if y >= i32::MAX - 100 {
                    y += 1;
                } else {
                    let p = skip_orientation(&o, x, y, l);
                    y = p.y;
                }
                x = 0;
                proof {
                    assert forall|x2: int, y2: int|
                        x2 >= 0 && ((y2 == y0 && x2 >= x0) || (y0 < y2 < y))
                        implies !fits(o, x2, y2, hi, wi, l as int) by {
                        lemma_skip_passes_no_fit(o, x0, y0, hi, wi, l as int, x2, y2);
                    }
                    lemma_skip_passes_no_fit(o, x0, y0, hi, wi, l as int, x0, y0);
                }
            }
        }
        k += 1;
    }
    let mut pruned: Vec<Location> = Vec::new();
    let ghost mut pks: Seq<int> = Seq::empty();
    let mut j: usize = 0;
    while j < locations.len()
        invariant
            j <= locations@.len(),
            ks.len() == locations@.len(),
            forall|t: int| 0 <= t < ks.len() ==> 0 <= #[trigger] ks[t] < os.len() && os[ks[t]] == locations@[t].orientation,
            forall|a: int, b: int| 0 <= a < b < ks.len() ==>
                key_lt(#[trigger] ks[a], locations@[a].y as int, locations@[a].x as int, #[trigger] ks[b], locations@[b].y as int, locations@[b].x as int),
            pks.len() == pruned@.len(),
            forall|i: int| 0 <= i < pks.len() ==> 0 <= #[trigger] pks[i] < os.len() && os[pks[i]] == pruned@[i].orientation,
            forall|a: int, b: int| 0 <= a < b < pks.len() ==>
                key_lt(#[trigger] pks[a], pruned@[a].y as int, pruned@[a].x as int, #[trigger] pks[b], pruned@[b].y as int, pruned@[b].x as int),
            forall|i: int, t: int| 0 <= i < pks.len() && j <= t < ks.len() ==>
                key_lt(#[trigger] pks[i], pruned@[i].y as int, pruned@[i].x as int, #[trigger] ks[t], locations@[t].y as int, locations@[t].x as int),
            forall|t: int| 0 <= t < locations@.len() ==> {
                &&& is_spot(word@, g, os, wi, hi, #[trigger] locations@[t].orientation, locations@[t].x as int, locations@[t].y as int)
                &&& locations@[t].overlap == overlap_of(word@, g, locations@[t].x as int, locations@[t].y as int, locations@[t].orientation)
                &&& locations@[t].overlap <= max_overlap
                &&& locations@[t].word@ == word@
            },
            forall|i: int| 0 <= i < pruned@.len() ==> {
                &&& (#[trigger] pruned@[i]).overlap == max_overlap
                &&& pruned@[i].overlap == overlap_of(word@, g, pruned@[i].x as int, pruned@[i].y as int, pruned@[i].orientation)
                &&& lists_spot(locations@, locations@.len() as int, pruned@[i].orientation, pruned@[i].x as int, pruned@[i].y as int)
                &&& pruned@[i].word@ == word@
            },
            forall|i: int| 0 <= i < j && (#[trigger] locations@[i]).overlap >= max_overlap
                ==> lists_spot(pruned@, pruned@.len() as int, locations@[i].orientation, locations@[i].x as int, locations@[i].y as int),
        decreases locations@.len() - j,
    {
        let loc = &locations[j];
        if loc.overlap >= max_overlap {
            let ghost old_p = pruned@;
            pruned.push(Location::from(loc.x, loc.y, loc.overlap, &loc.orientation, loc.word.as_str()));
            proof {
                pks = pks.push(ks[j as int]);
            }
            proof {
                assert(pruned@[old_p.len() as int] == pruned@.last());
                assert forall|i: int| 0 <= i < j + 1 && (#[trigger] locations@[i]).overlap >= max_overlap
                    implies lists_spot(pruned@, pruned@.len() as int, locations@[i].orientation, locations@[i].x as int, locations@[i].y as int) by {
                    if i < j {
                        let t = choose|t: int| 0 <= t < old_p.len() && (#[trigger] old_p[t]).orientation == locations@[i].orientation && old_p[t].x == locations@[i].x && old_p[t].y == locations@[i].y;
                        assert(pruned@[t] == old_p[t]);
                    } else {
                        assert(pruned@[old_p.len() as int].orientation == locations@[i].orientation);
                    }
                }
                assert(lists_spot(locations@, locations@.len() as int, loc.orientation, loc.x as int, loc.y as int)) by {
                    assert(locations@[j as int] == *loc);
                }
            }
        }
        j += 1;
    }
    proof {
        assert forall|o2: Orientation, x2: int, y2: int|
            #[trigger] is_spot(word@, g, os, wi, hi, o2, x2, y2)
            implies overlap_of(word@, g, x2, y2, o2) <= max_overlap
                && (overlap_of(word@, g, x2, y2, o2) >= max_overlap ==> lists_spot(locations@, locations@.len() as int, o2, x2, y2)) by {
            let k2 = choose|k2: int| 0 <= k2 < os.len() && os[k2] == o2;
            assert(is_spot(word@, g, os, wi, hi, os[k2], x2, y2));
        }
        assert forall|i: int| 0 <= i < pruned@.len() implies {
            &&& is_best_spot(word@, g, os, wi, hi, #[trigger] pruned@[i].orientation, pruned@[i].x as int, pruned@[i].y as int)
            &&& pruned@[i].overlap == overlap_of(word@, g, pruned@[i].x as int, pruned@[i].y as int, pruned@[i].orientation)
        } by {
            let t = choose|t: int| 0 <= t < locations@.len() && (#[trigger] locations@[t]).orientation == pruned@[i].orientation
                && locations@[t].x == pruned@[i].x && locations@[t].y == pruned@[i].y;
            assert(is_spot(word@, g, os, wi, hi, locations@[t].orientation, locations@[t].x as int, locations@[t].y as int));
        }
        assert forall|o2: Orientation, x2: int, y2: int|
            #[trigger] is_best_spot(word@, g, os, wi, hi, o2, x2, y2)
            implies lists_spot(pruned@, pruned@.len() as int, o2, x2, y2) by {
            if max_overlap > 0 {
                let t = choose|t: int| 0 <= t < locations@.len() && (#[trigger] locations@[t]).overlap == max_overlap;
                assert(is_spot(word@, g, os, wi, hi, locations@[t].orientation, locations@[t].x as int, locations@[t].y as int));
            }
            let t = choose|t: int| 0 <= t < locations@.len() && (#[trigger] locations@[t]).orientation == o2
                && locations@[t].x == x2 && locations@[t].y == y2;
            assert(locations@[t].overlap == overlap_of(word@, g, x2, y2, o2));
        }
        if has_spot(word@, g, os, wi, hi) {
            let (o2, x2, y2) = choose|o2: Orientation, x2: int, y2: int| is_spot(word@, g, os, wi, hi, o2, x2, y2);
            assert(is_spot(word@, g, os, wi, hi, o2, x2, y2));
            if max_overlap > 0 {
                let t = choose|t: int| 0 <= t < locations@.len() && (#[trigger] locations@[t]).overlap == max_overlap;
                assert(locations@[t].overlap >= max_overlap);
                assert(lists_spot(pruned@, pruned@.len() as int, locations@[t].orientation, locations@[t].x as int, locations@[t].y as int));
            } else {
                let t = choose|t: int| 0 <= t < locations@.len() && (#[trigger] locations@[t]).orientation == o2
                    && locations@[t].x == x2 && locations@[t].y == y2;
                assert(locations@[t].overlap >= max_overlap);
                assert(lists_spot(pruned@, pruned@.len() as int, o2, x2, y2));
            }
        }
        assert forall|a: int, b: int| 0 <= a < b < pruned@.len() implies
            scan_before(os, #[trigger] pruned@[a], #[trigger] pruned@[b]) by {
            assert(key_lt(pks[a], pruned@[a].y as int, pruned@[a].x as int, pks[b], pruned@[b].y as int, pruned@[b].x as int));
        }
        if os.no_duplicates() {
            assert forall|a: int, b: int| 0 <= a < b < pruned@.len() implies
                !(#[trigger] pruned@[a].orientation == #[trigger] pruned@[b].orientation
                    && pruned@[a].x == pruned@[b].x && pruned@[a].y == pruned@[b].y) by {
                assert(key_lt(pks[a], pruned@[a].y as int, pruned@[a].x as int, pks[b], pruned@[b].y as int, pruned@[b].x as int));
                if pruned@[a].orientation == pruned@[b].orientation {
                    assert(os[pks[a]] == os[pks[b]]);
                }
            }
        }
        if pruned@.len() > 0 {
            let t = choose|t: int| 0 <= t < locations@.len() && (#[trigger] locations@[t]).orientation == pruned@[0].orientation
                && locations@[t].x == pruned@[0].x && locations@[t].y == pruned@[0].y;
            assert(is_spot(word@, g, os, wi, hi, locations@[t].orientation, locations@[t].x as int, locations@[t].y as int));
        }
    }
    pruned
}


/// The grid after the first `n` letters of `word` are written from `(x, y)`
/// along `o`, each into its cell only where that cell is blank.
pub open spec fn place_upto(
    word: Seq<char>,
    g: Seq<Seq<char>>,
    x: int,
    y: int,
    o: Orientation,
    n: nat,
) -> Seq<Seq<char>>
    decreases n,
{
    if n == 0 {
        g
    } else {
        let g1 = place_upto(word, g, x, y, o, (n - 1) as nat);
        let cell = step(o, x, y, n - 1);
        if g1[cell.1][cell.0] == blank() {
            g1.update(cell.1, g1[cell.1].update(cell.0, word[n - 1]))
        } else {
            g1
        }
    }
}

/// The grid after `word` is written from `(x, y)` along `o`.
pub open spec fn placed(word: Seq<char>, g: Seq<Seq<char>>, x: int, y: int, o: Orientation) -> Seq<Seq<char>> {
    place_upto(word, g, x, y, o, word.len())
}

/// Each letter of `word` stands in its cell when written from `(x, y)` along `o`.
pub open spec fn word_at(g: Seq<Seq<char>>, word: Seq<char>, x: int, y: int, o: Orientation) -> bool {
    forall|i: int| 0 <= i < word.len() ==> #[trigger] g[step(o, x, y, i).1][step(o, x, y, i).0] == word[i]
}

proof fn lemma_place_upto_wf(word: Seq<char>, g: Seq<Seq<char>>, x: int, y: int, o: Orientation, n: nat, w: int, h: int)
    requires
        grid_wf(g, w, h),
        0 <= x < w,
        0 <= y < h,
        fits(o, x, y, h, w, word.len() as int),
        n <= word.len(),
    ensures
        grid_wf(place_upto(word, g, x, y, o, n), w, h),
    decreases n,
{
    if n > 0 {
        lemma_place_upto_wf(word, g, x, y, o, (n - 1) as nat, w, h);
        lemma_fits_stays_in_grid(o, x, y, h, w, word.len() as int, n - 1);
    }
}

proof fn lemma_place_upto_other(
    word: Seq<char>, g: Seq<Seq<char>>, x: int, y: int, o: Orientation, n: nat, w: int, h: int, r: int, c: int,
)
    requires
        grid_wf(g, w, h),
        0 <= x < w,
        0 <= y < h,
        fits(o, x, y, h, w, word.len() as int),
        n <= word.len(),
        0 <= r < h,
        0 <= c < w,
        forall|i: int| 0 <= i < n ==> #[trigger] step(o, x, y, i) != (c, r),
    ensures
        place_upto(word, g, x, y, o, n)[r][c] == g[r][c],
    decreases n,
{
    if n > 0 {
        lemma_place_upto_other(word, g, x, y, o, (n - 1) as nat, w, h, r, c);
        lemma_place_upto_wf(word, g, x, y, o, (n - 1) as nat, w, h);
        lemma_fits_stays_in_grid(o, x, y, h, w, word.len() as int, n - 1);
        assert(step(o, x, y, n - 1) != (c, r));
    }
}

proof fn lemma_place_upto_word(word: Seq<char>, g: Seq<Seq<char>>, x: int, y: int, o: Orientation, n: nat, w: int, h: int)
    requires
        grid_wf(g, w, h),
        0 <= x < w,
        0 <= y < h,
        fits(o, x, y, h, w, word.len() as int),
        n <= word.len(),
        overlap_upto(word, g, x, y, o, n) >= 0,
    ensures
        forall|i: int| 0 <= i < n ==>
            #[trigger] place_upto(word, g, x, y, o, n)[step(o, x, y, i).1][step(o, x, y, i).0] == word[i],
    decreases n,
{
    if n > 0 {
        let m = (n - 1) as nat;
        let g1 = place_upto(word, g, x, y, o, m);
        let cell = step(o, x, y, m as int);
        if overlap_upto(word, g, x, y, o, m) < 0 {
            assert(overlap_upto(word, g, x, y, o, n) == -1);
        }
        lemma_place_upto_word(word, g, x, y, o, m, w, h);
        lemma_place_upto_wf(word, g, x, y, o, m, w, h);
        lemma_fits_stays_in_grid(o, x, y, h, w, word.len() as int, m as int);
        lemma_place_upto_other(word, g, x, y, o, m, w, h, cell.1, cell.0);
        assert forall|i: int| 0 <= i < n implies
            #[trigger] place_upto(word, g, x, y, o, n)[step(o, x, y, i).1][step(o, x, y, i).0] == word[i] by {
            if i < m {
                lemma_fits_stays_in_grid(o, x, y, h, w, word.len() as int, i);
                assert(step(o, x, y, i) != cell);
            }
        }
    }
}

proof fn lemma_place_upto_keeps(
    word: Seq<char>, g: Seq<Seq<char>>, x: int, y: int, o: Orientation, n: nat, w: int, h: int, r: int, c: int,
)
    requires
        grid_wf(g, w, h),
        0 <= x < w,
        0 <= y < h,
        fits(o, x, y, h, w, word.len() as int),
        n <= word.len(),
        0 <= r < h,
        0 <= c < w,
        g[r][c] != blank(),
    ensures
        place_upto(word, g, x, y, o, n)[r][c] == g[r][c],
    decreases n,
{
    if n > 0 {
        lemma_place_upto_keeps(word, g, x, y, o, (n - 1) as nat, w, h, r, c);
        lemma_place_upto_wf(word, g, x, y, o, (n - 1) as nat, w, h);
        lemma_fits_stays_in_grid(o, x, y, h, w, word.len() as int, n - 1);
    }
}

/// Writing a word at one of its spots leaves each of its letters in its
/// cell, keeps every letter already in the grid, and keeps the grid's shape.
pub proof fn lemma_placed_spot(word: Seq<char>, g: Seq<Seq<char>>, os: Seq<Orientation>, w: int, h: int, o: Orientation, x: int, y: int)
    requires
        grid_wf(g, w, h),
        is_spot(word, g, os, w, h, o, x, y),
    ensures
        word_at(placed(word, g, x, y, o), word, x, y, o),
        grid_wf(placed(word, g, x, y, o), w, h),
        forall|r: int, c: int| 0 <= r < h && 0 <= c < w && g[r][c] != blank()
            ==> #[trigger] placed(word, g, x, y, o)[r][c] == g[r][c],
{
    lemma_place_upto_word(word, g, x, y, o, word.len(), w, h);
    lemma_place_upto_wf(word, g, x, y, o, word.len(), w, h);
    assert forall|r: int, c: int| 0 <= r < h && 0 <= c < w && g[r][c] != blank()
        implies #[trigger] placed(word, g, x, y, o)[r][c] == g[r][c] by {
        lemma_place_upto_keeps(word, g, x, y, o, word.len(), w, h, r, c);
    }
}

/// Cell `(c, r)` holds one of the first `n` letters of a word written from
/// `(x, y)` along `o`.
pub open spec fn on_path(o: Orientation, x: int, y: int, n: int, c: int, r: int) -> bool {
    exists|t: int| 0 <= t < n && #[trigger] step(o, x, y, t) == (c, r)
}

/// Writing a word at a spot changes no cell off the word's path.
pub proof fn lemma_placed_changes_only_path(word: Seq<char>, g: Seq<Seq<char>>, os: Seq<Orientation>, w: int, h: int, o: Orientation, x: int, y: int)
    requires
        grid_wf(g, w, h),
        is_spot(word, g, os, w, h, o, x, y),
    ensures
        forall|r: int, c: int| 0 <= r < h && 0 <= c < w && #[trigger] placed(word, g, x, y, o)[r][c] != g[r][c]
            ==> on_path(o, x, y, word.len() as int, c, r),
{
    assert forall|r: int, c: int| 0 <= r < h && 0 <= c < w && #[trigger] placed(word, g, x, y, o)[r][c] != g[r][c]
        implies on_path(o, x, y, word.len() as int, c, r) by {
        if !on_path(o, x, y, word.len() as int, c, r) {
            lemma_place_upto_other(word, g, x, y, o, word.len(), w, h, r, c);
        }
    }
}

/// Writes `word` along `location` into `grid`, leaving filled cells alone.
pub fn place_word(word: &str, location: &Location, grid: &mut Vec<Vec<char>>, settings: &Settings)
    requires
        grid_wf(grid_view(old(grid)), settings.width as int, settings.height as int),
        0 <= location.x < settings.width,
        0 <= location.y < settings.height,
        fits(location.orientation, location.x as int, location.y as int, settings.height as int, settings.width as int, word@.len() as int),
    ensures
        grid_view(final(grid)) == placed(word@, grid_view(old(grid)), location.x as int, location.y as int, location.orientation),
        grid_wf(grid_view(final(grid)), settings.width as int, settings.height as int),
{
    let ghost g0 = grid_view(grid);
    let ghost (w, h) = (settings.width as int, settings.height as int);
    let ghost (x, y, o) = (location.x as int, location.y as int, location.orientation);
    let len = word.unicode_len();
    let mut i: usize = 0;
    while i < len
        invariant
            len == word@.len(),
            i <= len,
            grid_view(grid) == place_upto(word@, g0, x, y, o, i as nat),
            grid_wf(grid_view(grid), w, h),
            grid_wf(g0, w, h),
            w == settings.width, h == settings.height,
            x == location.x, y == location.y, o == location.orientation,
            0 <= x < w,
            0 <= y < h,
            fits(o, x, y, h, w, len as int),
        decreases len - i,
    {
        proof {
            lemma_fits_stays_in_grid(o, x, y, h, w, len as int, i as int);
        }
        let p = get_orientation(&location.orientation, location.x, location.y, i as i32);
        let ghost gv = grid_view(grid);
        assert(grid@[p.y as int]@ == gv[p.y as int]);
        if grid[p.y as usize][p.x as usize] == ' ' {
            let c = word.get_char(i);
            grid[p.y as usize][p.x as usize] = c;
            assert(grid_view(grid) =~= gv.update(p.y as int, gv[p.y as int].update(p.x as int, c)));
        }
        i += 1;
    }
}

/// Places `word` at one of its best spots, chosen by `rng`. Returns whether
/// the word had a spot; when it had none the grid is unchanged.
pub fn place_word_in_puzzle<R: RandomSource>(
    word: &str,
    grid: &mut Vec<Vec<char>>,
    settings: &Settings,
    rng: &mut R,
) -> (r: bool)
    requires
        grid_wf(grid_view(old(grid)), settings.width as int, settings.height as int),
        settings.width >= 0,
        settings.height >= 0,
    ensures
        r == has_spot(word@, grid_view(old(grid)), settings.orientations@, settings.width as int, settings.height as int),
        !r ==> *final(grid) == *old(grid),
        r ==> exists|o: Orientation, x: int, y: int| {
            &&& #[trigger] is_best_spot(word@, grid_view(old(grid)), settings.orientations@, settings.width as int, settings.height as int, o, x, y)
            &&& grid_view(final(grid)) == placed(word@, grid_view(old(grid)), x, y, o)
        },
        grid_wf(grid_view(final(grid)), settings.width as int, settings.height as int),
{
    let locations = find_best_locations(word, grid, settings);
    if locations.len() == 0 {
        return false;
    }
    let k = rng.next_below(locations.len());
    let location = &locations[k];
    proof {
        assert(is_best_spot(word@, grid_view(grid), settings.orientations@, settings.width as int, settings.height as int, locations@[k as int].orientation, locations@[k as int].x as int, locations@[k as int].y as int));
    }
    place_word(word, location, grid, settings);
    true
}

/// The best spots for a word depend on which directions are allowed, not on
/// the order in which they are listed.
pub proof fn lemma_best_spots_ignore_order(
    word: Seq<char>,
    g: Seq<Seq<char>>,
    os1: Seq<Orientation>,
    os2: Seq<Orientation>,
    w: int,
    h: int,
    o: Orientation,
    x: int,
    y: int,
)
    requires
        forall|d: Orientation| os1.contains(d) <==> os2.contains(d),
    ensures
        is_best_spot(word, g, os1, w, h, o, x, y) <==> is_best_spot(word, g, os2, w, h, o, x, y),
{
    assert forall|d: Orientation, x2: int, y2: int|
        is_spot(word, g, os1, w, h, d, x2, y2) <==> #[trigger] is_spot(word, g, os2, w, h, d, x2, y2) by {
        assert(os1.contains(d) <==> os2.contains(d));
    }
    assert(is_spot(word, g, os1, w, h, o, x, y) <==> is_spot(word, g, os2, w, h, o, x, y));
    if is_best_spot(word, g, os1, w, h, o, x, y) {
        assert forall|d: Orientation, x2: int, y2: int| #[trigger] is_spot(word, g, os2, w, h, d, x2, y2)
            implies overlap_of(word, g, x2, y2, d) <= overlap_of(word, g, x, y, o) by {
            assert(is_spot(word, g, os1, w, h, d, x2, y2));
        }
    }
    if is_best_spot(word, g, os2, w, h, o, x, y) {
        assert forall|d: Orientation, x2: int, y2: int| #[trigger] is_spot(word, g, os1, w, h, d, x2, y2)
            implies overlap_of(word, g, x2, y2, d) <= overlap_of(word, g, x, y, o) by {
            assert(is_spot(word, g, os2, w, h, d, x2, y2));
        }
    }
}

proof fn lemma_overlap_blank(word: Seq<char>, g: Seq<Seq<char>>, x: int, y: int, o: Orientation, n: nat, w: int, h: int)
    requires
        grid_wf(g, w, h),
        forall|r: int, c: int| 0 <= r < h && 0 <= c < w ==> #[trigger] g[r][c] == blank(),
        0 <= x < w,
        0 <= y < h,
        fits(o, x, y, h, w, word.len() as int),
        n <= word.len(),
    ensures
        overlap_upto(word, g, x, y, o, n) == 0,
    decreases n,
{
    if n > 0 {
        lemma_overlap_blank(word, g, x, y, o, (n - 1) as nat, w, h);
        lemma_fits_stays_in_grid(o, x, y, h, w, word.len() as int, n - 1);
    }
}

/// On a blank grid at least as wide and as tall as a word, with at least
/// one direction allowed, the word always has a spot.
pub proof fn lemma_blank_grid_has_spot(word: Seq<char>, g: Seq<Seq<char>>, os: Seq<Orientation>, w: int, h: int)
    requires
        grid_wf(g, w, h),
        forall|r: int, c: int| 0 <= r < h && 0 <= c < w ==> #[trigger] g[r][c] == blank(),
        os.len() > 0,
        w > 0,
        h > 0,
        word.len() <= w,
        word.len() <= h,
    ensures
        has_spot(word, g, os, w, h),
{
    let o = os[0];
    let y: int = if o == Orientation::DiagonalUp && word.len() > 0 { word.len() - 1 } else { 0 };
    assert(fits(o, 0, y, h, w, word.len() as int));
    lemma_overlap_blank(word, g, 0, y, o, word.len(), w, h);
    assert(os.contains(o)) by { assert(os[0] == o); }
    assert(is_spot(word, g, os, w, h, o, 0, y));
}

} // verus!
