//! What the interface decides: the grid tiles are laid out on, the tints they are drawn
//! in, and which row each temperature sensor goes to.
pub mod grid;
pub mod tint;
pub mod sensors;
