//! Mahjong tiles, tile combinations, and the search for the winning-hand
//! patterns ("agari patterns") into which a hand of tiles can be split.

pub mod mjcore;
pub mod agari;
