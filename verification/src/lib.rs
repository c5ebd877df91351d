//! Occupancy-grid mapping for a mobile robot on a plane.
//!
//! Coordinates are fixed-point integers. A grid of square cells is anchored
//! in the world; each range return marks the cell it falls in as occupied
//! and the cells along the ray from the robot as free space.
pub mod controller;
pub mod geometry;
pub mod math;
pub mod pointcloud;
pub mod raster;
pub mod simulation;
