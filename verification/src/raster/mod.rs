//! Which lattice cells a straight segment passes through, and in what order.
pub mod lane;
pub mod frame;
pub mod crossing;
pub mod span;
pub mod walk;
pub mod trace;
