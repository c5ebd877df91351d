//! Plane geometry on fixed-point coordinates.
pub mod line;
pub mod point;
pub mod vector;

pub use line::Line;
pub use point::Point;
pub use vector::Vector;
