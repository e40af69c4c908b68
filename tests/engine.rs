use wordsearch::{
    blank_grid, calculate_overlap, find_best_locations, place_word, place_word_in_puzzle, sort_words,
    Lcg, Location, Orientation, RandomSource, Settings, WordSearch,
};

fn settings(w: i32, h: i32, orientations: Vec<Orientation>) -> Settings {
    Settings {
        width: w,
        height: h,
        orientations,
        ..Default::default()
    }
}

fn row(grid: &Vec<Vec<char>>, y: usize) -> String {
    grid[y].iter().collect()
}

fn column(grid: &Vec<Vec<char>>, x: usize) -> String {
    grid.iter().map(|r| r[x]).collect()
}

#[test]
fn test_word_search() {
    let words: Vec<String> = vec![
        String::from("hello"),
        String::from("world"),
        String::from("test"),
        String::from("mark"),
    ];
    let word_search = WordSearch::new(&words, 4, 4);
    assert_eq!(word_search.words.len(), 4);
    assert_eq!(word_search.settings.width, 5);
    assert_eq!(word_search.settings.height, 5);
}

#[test]
fn words_are_kept_shortest_first_in_order() {
    let words: Vec<String> = ["ccc", "a", "bb", "dd", "e"].iter().map(|s| s.to_string()).collect();
    let sorted = sort_words(&words);
    assert_eq!(sorted, vec!["a", "e", "bb", "dd", "ccc"]);
    let ws = WordSearch::new(&words, 1, 7);
    assert_eq!(ws.words, vec!["a", "e", "bb", "dd", "ccc"]);
    assert_eq!(ws.max_word_len, 3);
    assert_eq!((ws.settings.width, ws.settings.height), (3, 7));
}

#[test]
fn empty_word_list_is_refused() {
    let words: Vec<String> = Vec::new();
    assert!(WordSearch::try_new(&words, 3, 3).is_none());
    let one = vec![String::from("cat")];
    assert!(WordSearch::try_new(&one, 3, 3).is_some());
}

#[test]
fn single_word_on_one_row() {
    let words = vec![String::from("cat")];
    let mut ws = WordSearch::new(&words, 3, 3);
    ws.settings.orientations = vec![Orientation::Horizontal];
    let mut rng = Lcg::new(7);
    assert!(ws.create(&mut rng));
    assert!(ws.puzzle.errors.is_empty());
    assert!(ws.puzzle.words_not_placed.is_empty());
    let rows: Vec<String> = (0..3).map(|y| row(&ws.puzzle.puzzle, y)).collect();
    assert_eq!(rows.iter().filter(|r| r.as_str() == "cat").count(), 1);
    for r in ws.puzzle.puzzle.iter() {
        for c in r.iter() {
            assert!(c.is_ascii_lowercase());
        }
    }
    assert_eq!(ws.filler_cells, 6);
    assert!(ws.filler_cells > 0);
}

#[test]
fn no_orientation_exhausts_growth() {
    let words = vec![String::from("a"), String::from("aa")];
    let mut ws = WordSearch::new(&words, 2, 2);
    ws.settings.orientations = Vec::new();
    let mut rng = Lcg::new(1);
    assert!(!ws.create(&mut rng));
    assert_eq!((ws.settings.width, ws.settings.height), (12, 12));
    assert_eq!(
        ws.puzzle.errors.last().unwrap(),
        "No valid 12x12 grid found and not allowed to grow more"
    );
}

#[test]
fn growth_adds_one_row_and_column_per_cycle() {
    let words = vec![String::from("abcd")];
    let mut ws = WordSearch::new(&words, 0, 0);
    ws.settings.max_attempts = 1;
    ws.settings.max_grid_growth = 3;
    assert!(!ws.create(&mut Lcg::new(3)));
    assert_eq!((ws.settings.width, ws.settings.height), (7, 7));
    assert_eq!(ws.puzzle.errors, vec!["No valid 7x7 grid found and not allowed to grow more"]);
}

#[test]
fn crowded_words_make_the_grid_grow() {
    let words: Vec<String> = ["xyz", "pqr", "stu", "vwk"].iter().map(|s| s.to_string()).collect();
    let mut ws = WordSearch::new(&words, 3, 3);
    ws.settings.orientations = vec![Orientation::Horizontal];
    assert!(ws.create(&mut Lcg::new(11)));
    assert!(ws.settings.width > 3);
    assert_eq!(ws.settings.width, ws.settings.height);
    for w in words.iter() {
        let found = (0..ws.settings.height as usize).any(|y| row(&ws.puzzle.puzzle, y).contains(w.as_str()));
        assert!(found);
    }
}

#[test]
fn full_grid_needs_no_filler() {
    let words = vec![String::from("ab"), String::from("cd")];
    let mut ws = WordSearch::new(&words, 2, 2);
    ws.settings.orientations = vec![Orientation::Horizontal];
    assert!(ws.create(&mut Lcg::new(5)));
    assert_eq!((ws.settings.width, ws.settings.height), (2, 2));
    assert_eq!(ws.filler_cells, 0);
}

#[test]
fn shared_letter_is_preferred() {
    let s = settings(3, 3, vec![Orientation::Horizontal, Orientation::Vertical]);
    let mut grid = blank_grid(3, 3);
    let first = Location::from(0, 0, 0, &Orientation::Horizontal, "abc");
    place_word("abc", &first, &mut grid, &s);
    assert_eq!(row(&grid, 0), "abc");
    assert_eq!(calculate_overlap("cba", &grid, 2, 0, &Orientation::Vertical, 3, 3), 1);
    assert_eq!(calculate_overlap("cba", &grid, 0, 0, &Orientation::Vertical, 3, 3), -1);
    assert_eq!(calculate_overlap("cba", &grid, 0, 1, &Orientation::Horizontal, 3, 3), 0);
    let best = find_best_locations("cba", &grid, &s);
    assert_eq!(best.len(), 1);
    assert_eq!((best[0].x, best[0].y, best[0].overlap), (2, 0, 1));
    assert_eq!(best[0].orientation, Orientation::Vertical);
    let mut rng = Lcg::new(9);
    assert!(place_word_in_puzzle("cba", &mut grid, &s, &mut rng));
    assert_eq!(column(&grid, 2), "cba");
    assert_eq!(row(&grid, 0), "abc");
}

#[test]
fn both_words_land_in_a_three_by_three() {
    let words = vec![String::from("abc"), String::from("cba")];
    let mut ws = WordSearch::new(&words, 3, 3);
    ws.settings.orientations = vec![Orientation::Horizontal, Orientation::Vertical];
    assert!(ws.create(&mut Lcg::new(42)));
    let g = &ws.puzzle.puzzle;
    let n = ws.settings.width as usize;
    let lines: Vec<String> = (0..n).map(|i| row(g, i)).chain((0..n).map(|i| column(g, i))).collect();
    assert!(lines.iter().any(|l| l.contains("abc")));
    assert!(lines.iter().any(|l| l.contains("cba")));
}

#[test]
fn ties_are_all_returned_in_scan_order() {
    let s = settings(3, 2, vec![Orientation::Horizontal]);
    let grid = blank_grid(3, 2);
    let best = find_best_locations("ab", &grid, &s);
    let spots: Vec<(i32, i32)> = best.iter().map(|l| (l.x, l.y)).collect();
    assert_eq!(spots, vec![(0, 0), (1, 0), (0, 1), (1, 1)]);
    assert!(best.iter().all(|l| l.overlap == 0 && l.word == "ab"));
}

#[test]
fn candidate_set_ignores_orientation_order() {
    let mut grid = blank_grid(3, 3);
    grid[0][2] = 'a';
    let a = find_best_locations("ab", &grid, &settings(3, 3, vec![Orientation::Horizontal, Orientation::Vertical]));
    let b = find_best_locations("ab", &grid, &settings(3, 3, vec![Orientation::Vertical, Orientation::Horizontal]));
    let mut ka: Vec<(i32, i32, i32)> = a.iter().map(|l| (l.x, l.y, l.overlap)).collect();
    let mut kb: Vec<(i32, i32, i32)> = b.iter().map(|l| (l.x, l.y, l.overlap)).collect();
    ka.sort();
    kb.sort();
    assert_eq!(ka, vec![(2, 0, 1)]);
    assert_eq!(ka, kb);
}

#[test]
fn no_spot_leaves_grid_alone() {
    let s = settings(2, 2, vec![Orientation::Horizontal]);
    let mut grid = blank_grid(2, 2);
    let before = grid.clone();
    assert!(find_best_locations("abc", &grid, &s).is_empty());
    assert!(!place_word_in_puzzle("abc", &mut grid, &s, &mut Lcg::new(2)));
    assert_eq!(grid, before);
}

#[test]
fn generator_stays_below_bound() {
    let mut rng = Lcg::new(123);
    let mut seen = [false; 5];
    for _ in 0..200 {
        let r = rng.next_below(5);
        assert!(r < 5);
        seen[r] = true;
    }
    assert!(seen.iter().all(|s| *s));
}

#[test]
fn filling_counts_and_replaces_only_blanks() {
    let s = settings(2, 2, vec![Orientation::Horizontal]);
    let mut grid = blank_grid(2, 2);
    place_word("ab", &Location::from(0, 0, 0, &Orientation::Horizontal, "ab"), &mut grid, &s);
    let count = wordsearch::session::fill_blanks(&mut grid, &mut Lcg::new(4), 2, 2);
    assert_eq!(count, 2);
    assert_eq!(row(&grid, 0), "ab");
    assert!(grid[1].iter().all(|c| c.is_ascii_lowercase()));

    let mut full = vec![vec!['x', 'y'], vec!['z', 'w']];
    assert_eq!(wordsearch::session::fill_blanks(&mut full, &mut Lcg::new(4), 2, 2), 0);
    assert_eq!(full, vec![vec!['x', 'y'], vec!['z', 'w']]);
}

#[test]
fn conflicting_letter_rejects_a_spot() {
    let s = settings(3, 1, vec![Orientation::Horizontal]);
    let mut grid = blank_grid(3, 1);
    grid[0][1] = 'z';
    assert!(find_best_locations("abc", &grid, &s).is_empty());
    grid[0][1] = 'b';
    let best = find_best_locations("abc", &grid, &s);
    assert_eq!(best.len(), 1);
    assert_eq!(best[0].overlap, 1);
}

#[test]
fn negative_sizes_fall_back_to_longest_word() {
    let words = vec![String::from("hello"), String::from("ab")];
    let ws = WordSearch::new(&words, -4, -1);
    assert_eq!((ws.settings.width, ws.settings.height), (5, 5));
    assert_eq!(ws.words, vec!["ab", "hello"]);
    assert!(ws.puzzle.puzzle.iter().all(|r| r.len() == 5 && r.iter().all(|c| *c == ' ')));
    assert!(!ws.settings.prefer_overlap);
    assert!(WordSearch::try_new(&words, -2, -2).is_some());
}

#[test]
fn one_word_always_completes() {
    for seed in 0..20u64 {
        let words = vec![String::from("word")];
        let mut ws = WordSearch::new(&words, 4, 6);
        assert!(ws.create(&mut Lcg::new(seed)));
        assert!(ws.puzzle.errors.is_empty());
        assert_eq!((ws.settings.width, ws.settings.height), (4, 6));
        assert_eq!(ws.filler_cells, 20);
    }
}

#[test]
fn failure_records_one_error_and_one_word() {
    let words = vec![String::from("a"), String::from("aa")];
    let mut ws = WordSearch::new(&words, 2, 2);
    ws.settings.orientations = Vec::new();
    ws.settings.max_grid_growth = 2;
    assert!(!ws.create(&mut Lcg::new(1)));
    assert_eq!(ws.puzzle.errors, vec!["No valid 4x4 grid found and not allowed to grow more"]);
    assert_eq!(ws.puzzle.words_not_placed, vec!["a"]);
}
