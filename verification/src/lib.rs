//! A solver for the camps-and-trees grid puzzle.
//!
//! Every cell of a rectangular grid is unassigned, grass, a camp or a
//! tree.  Each row and each column has a quota of camps, no two camps
//! touch (not even diagonally) and every camp stands next to a tree of
//! its own.  The solver narrows unassigned cells by a handful of
//! deduction rules until nothing changes any more.
//!
//! The data: [`tile`], [`grid`] and [`board`], with the textual form of
//! tables in [`text`] and the reading of a whole puzzle in [`input`].
//! The rules: [`initialize_grass`], [`fill_zeros`], [`fill_camps`],
//! [`intersection`] and [`associate_trees`].  What the rules are held
//! against: [`narrowing`] and [`solution`].

pub mod associate_trees;
pub mod board;
pub mod fill_camps;
pub mod fill_zeros;
pub mod grid;
pub mod initialize_grass;
pub mod input;
pub mod intersection;
pub mod narrowing;
pub mod solution;
pub mod text;
pub mod tile;
