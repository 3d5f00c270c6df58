pub mod mjtile;
pub mod mjcomb;
