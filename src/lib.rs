//! Kōnane positions on bitboards: a fixed-capacity bit vector of machine words, the board
//! geometry over it, bit-parallel move generation, and numeric measures of positions.
pub mod bitarray;
pub mod konane;
pub mod measures;
pub mod moves;
pub mod parse;
pub mod word;
