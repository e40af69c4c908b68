pub mod geometry;
pub mod grid;
pub mod location;
pub mod placement;
pub mod random;
pub mod session;
pub mod settings;

pub use geometry::{Orientation, Position, get_orientation, check_orientation, skip_orientation};
pub use grid::{Puzzle, blank_grid};
pub use location::Location;
pub use settings::Settings;
pub use random::{RandomSource, Lcg};
pub use session::WordSearch;
pub use placement::{calculate_overlap, find_best_locations, place_word, place_word_in_puzzle};
pub use session::sort_words;
