use wordsearch::{
    check_orientation, get_orientation, skip_orientation, Location, Orientation, Position, Puzzle,
    Settings,
};

#[test]
fn test_location() {
    let x = 1;
    let y = 2;
    let overlap = 3;
    let orientation = Orientation::Horizontal;
    let word = String::from("test");
    let location = Location::from(x, y, overlap, &orientation, &word);
    assert_eq!(location.x, x);
    assert_eq!(location.y, y);
    assert_eq!(location.overlap, overlap);
    assert_eq!(location.word, word);
}

#[test]
fn test_get_orientation() {
    let orientation_h = Orientation::Horizontal;
    let position_h: Position = get_orientation(&orientation_h, 1, 2, 3);
    assert_eq!(position_h.x, 4);
    assert_eq!(position_h.y, 2);

    let orientation_v = Orientation::Vertical;
    let position_v: Position = get_orientation(&orientation_v, 1, 2, 3);
    assert_eq!(position_v.x, 1);
    assert_eq!(position_v.y, 5);

    let orientation_d = Orientation::Diagonal;
    let position_d: Position = get_orientation(&orientation_d, 1, 2, 3);
    assert_eq!(position_d.x, 4);
    assert_eq!(position_d.y, 5);
}

#[test]
fn test_check_orientation() {
    let orientation_h = Orientation::Horizontal;
    assert_eq!(check_orientation(&orientation_h, 1, 2, 3, 5, 4), true);
    assert_eq!(check_orientation(&orientation_h, 1, 2, 3, 5, 3), true);

    let orientation_v = Orientation::Vertical;
    assert_eq!(check_orientation(&orientation_v, 1, 1, 5, 5, 4), true);
    assert_eq!(check_orientation(&orientation_v, 1, 1, 5, 5, 3), true);

    let orientation_d = Orientation::Diagonal;
    assert_eq!(check_orientation(&orientation_d, 1, 1, 5, 5, 4), true);
}

#[test]
fn test_skip_orientation() {
    let orientation_h = Orientation::Horizontal;
    let position_h: Position = skip_orientation(&orientation_h, 1, 2, 3);
    assert_eq!(position_h.x, 1);
    assert_eq!(position_h.y, 3);

    let orientation_v = Orientation::Vertical;
    let position_v: Position = skip_orientation(&orientation_v, 1, 2, 3);
    assert_eq!(position_v.x, 0);
    assert_eq!(position_v.y, 102);

    let orientation_d = Orientation::Diagonal;
    let position_d: Position = skip_orientation(&orientation_d, 1, 2, 3);
    assert_eq!(position_d.x, 0);
    assert_eq!(position_d.y, 3);
}

#[test]
fn test_position() {
    let p = Position::from(1, 2);
    assert_eq!(p.x, 1);
    assert_eq!(p.y, 2);
}

#[test]
fn test_new_puzzle() {
    let puzzle = Puzzle::new(5, 5);
    assert_eq!(puzzle.puzzle.len(), 5);
    assert_eq!(puzzle.puzzle[0].len(), 5);
    assert_eq!(puzzle.puzzle[1].len(), 5);
    assert_eq!(puzzle.puzzle[2].len(), 5);
    assert_eq!(puzzle.puzzle[3].len(), 5);
    assert_eq!(puzzle.puzzle[4].len(), 5);
}

#[test]
fn test_place_char() {
    let mut puzzle = Puzzle::new(5, 5);
    puzzle.place_char('a', 1, 1);
    assert_eq!(puzzle.puzzle[1][1], 'a');
}

#[test]
fn test_add_words_not_placed() {
    let mut puzzle = Puzzle::new(5, 5);
    puzzle.add_words_not_placed("test");
    assert_eq!(puzzle.words_not_placed[0], "test");
}

#[test]
fn test_add_warning() {
    let mut puzzle = Puzzle::new(5, 5);
    puzzle.add_warning("test");
    assert_eq!(puzzle.warnings[0], "test");
}

#[test]
fn test_add_errors() {
    let mut puzzle = Puzzle::new(5, 5);
    puzzle.add_errors("test");
    assert_eq!(puzzle.errors[0], "test");
}

#[test]
fn test_settings() {
    let mut settings = Settings::default();
    assert_eq!(settings.width, 10);
    assert_eq!(settings.height, 10);
    assert_eq!(settings.max_attempts, 10);
    assert_eq!(settings.max_grid_growth, 10);
    assert_eq!(settings.prefer_overlap, false);

    settings.set_width(20);
    settings.set_height(20);
    assert_eq!(settings.width, 20);
    assert_eq!(settings.height, 20);

    let settings_2 = Settings {
        width: 20,
        height: 20,
        ..Default::default()
    };
    assert_eq!(settings_2.width, 20);
    assert_eq!(settings_2.height, 20);
}

#[test]
fn diagonal_up_geometry() {
    let p = get_orientation(&Orientation::DiagonalUp, 1, 4, 3);
    assert_eq!((p.x, p.y), (4, 1));
    assert!(check_orientation(&Orientation::DiagonalUp, 0, 2, 3, 3, 3));
    assert!(!check_orientation(&Orientation::DiagonalUp, 0, 1, 3, 3, 3));
    let below = skip_orientation(&Orientation::DiagonalUp, 2, 0, 3);
    assert_eq!((below.x, below.y), (0, 2));
    let next = skip_orientation(&Orientation::DiagonalUp, 2, 5, 3);
    assert_eq!((next.x, next.y), (0, 6));
}

#[test]
fn fitting_origin_keeps_every_letter_inside() {
    let all = [
        Orientation::Horizontal,
        Orientation::Vertical,
        Orientation::Diagonal,
        Orientation::DiagonalUp,
    ];
    let (w, h, l) = (4, 5, 3);
    for o in all.iter() {
        for y in 0..h {
            for x in 0..w {
                if check_orientation(o, x, y, h, w, l) {
                    for i in 0..l {
                        let p = get_orientation(o, x, y, i);
                        assert!(p.x >= 0 && p.x < w && p.y >= 0 && p.y < h);
                    }
                }
            }
        }
    }
}

#[test]
fn wide_values_do_not_wrap() {
    assert!(!check_orientation(&Orientation::Horizontal, i32::MAX, 0, 10, i32::MAX, 2));
}

#[test]
fn place_char_takes_column_then_row() {
    let mut puzzle = Puzzle::new(3, 3);
    puzzle.place_char('a', 0, 1);
    assert_eq!(puzzle.puzzle[1][0], 'a');
    assert_eq!(puzzle.puzzle[0][1], ' ');
}
