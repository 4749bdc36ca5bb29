//! Open knight's tours on rectangular boards, found by a deterministic
//! depth-first backtracking search.
pub mod matrix;
pub mod moves;
pub mod position;
pub mod search;
pub mod tour_guide;

pub use tour_guide::find_solution;
pub use tour_guide::has_solution;
pub use tour_guide::Tour;
pub use tour_guide::TourInput;
pub use tour_guide::TourResult;
