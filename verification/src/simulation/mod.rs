//! The robot whose sensing feeds the map.
pub mod robot;
