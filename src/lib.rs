pub mod change;
pub mod compare;
pub mod cube;
pub mod physics;
pub mod picking;
pub mod segment;
