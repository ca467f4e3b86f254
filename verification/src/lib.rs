//! A generic two-dimensional cellular-automaton kernel: a fixed-size toroidal
//! grid of cells and the synchronous step that derives the next generation
//! from a per-cell transition rule.

pub mod frame;
pub mod neighborhood;
pub mod torus;
