//! Cave-like tile maps grown from random noise by a cellular automaton, together with
//! the analysis of the result into connected regions and boundary contours.
//!
//! - [`matrix`]: the grid and the passes over it: noise, borders, smoothing, contours
//!   and regions.
//! - [`flood`]: the breadth-first flood fill behind the regions.
//! - [`connectivity`]: what it means for cells to be connected and for lists of cells
//!   to be the regions of a grid.
//! - [`prune`]: erasing small regions and keeping only the largest one.
//! - [`clearing`]: what these two cleaning passes leave behind.
//! - [`cave`]: the grids of the generator and what its passes keep of them.
//! - [`generator`]: the generator, which owns a grid, its parameters and its analysis.
//! - [`palette`] and [`command`]: colours and key commands for a front end.

pub mod cave;
pub mod clearing;
pub mod command;
pub mod connectivity;
pub mod flood;
pub mod generator;
pub mod matrix;
pub mod palette;
pub mod prune;
