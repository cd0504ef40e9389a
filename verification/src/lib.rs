//! The rules of the eight puzzle: a three by three board of eight numbered
//! tiles and one blank, shuffled so that it can always be solved.

pub mod grid;
pub mod model;
pub mod permutation;

pub use grid::{GameMap, Position};
pub use model::{Click, GameModel, SlideModel};
pub use permutation::{generate_shuffled_list, reverse_number};
