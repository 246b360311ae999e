//! Word-search puzzle generation: a square character grid into which words
//! are placed in one of eight compass directions, with collision and bounds
//! checking, a bounded randomized search for a valid position, a fill-in
//! pass that covers the remaining cells with random letters, and
//! serialization to a simple tabular format.
mod config;
mod direction;
mod error;
mod grid;
mod output;
mod rng;
mod runner;
mod text;

pub use config::Config;
pub use direction::lemma_incrementors_unit;
pub use direction::spec_dx;
pub use direction::spec_dy;
pub use direction::Direction;
pub use error::PuzzleError;
pub use grid::all_candidates_valid;
pub use grid::all_directions;
pub use grid::blank;
pub use grid::cell_free_for;
pub use grid::cell_in_grid;
pub use grid::easy_directions;
pub use grid::has_blank;
pub use grid::lemma_cell_sequence;
pub use grid::lemma_collision_rejected;
pub use grid::lemma_entries_readable;
pub use grid::lemma_out_of_bounds_rejected;
pub use grid::lemma_direction_moves;
pub use grid::lemma_fits_cells_in_grid;
pub use grid::lemma_path_injective;
pub use grid::lemma_step_unfold;
pub use grid::lemma_unit_mul_bound;
pub use grid::on_word_path;
pub use grid::spec_fits;
pub use grid::spec_no_collision;
pub use grid::spec_placement_valid;
pub use grid::step_x;
pub use grid::step_y;
pub use grid::word_cell_ok;
pub use grid::word_in_grid;
pub use grid::filled_cell;
pub use grid::no_valid_candidate;
pub use grid::PuzzleGrid;
pub use output::entry_text;
pub use output::grid_text;
pub use output::joined_cells;
pub use output::output_text_spec;
pub use output::row_text;
pub use output::words_text;
pub use runner::all_fit;
pub use runner::run;
pub use runner::too_long_message;
pub use runner::unplaced_message;
pub use runner::upper_all;
pub use runner::word_fits_budget;
pub use text::dec_seq;
pub use text::digit_char;
pub use text::to_upper;
pub use text::upper_char;
pub use text::upper_seq;
pub use text::usize_to_string;
