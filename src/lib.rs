//! Verified solvers for a collection of small text puzzles, centred on a
//! run-length arrangement counter for partially known rows of cells.
pub mod almanac;
pub mod calibration;
pub mod camel_cards;
pub mod cubes;
pub mod extrapolation;
pub mod race;
pub mod schematic;
pub mod scratchcards;
pub mod springs;
pub mod text;
