//! A small graph-console library: an interactive command dispatcher with
//! fuzzy command suggestions, and a layout engine that assigns 2D integer
//! coordinates to the nodes of a directed graph (a depth-first tree layout
//! for acyclic graphs, a fixed-iteration spring relaxation for cyclic ones).

pub mod algo;
pub mod cli;
pub mod dispatch;
pub mod force;
pub mod fuzzy;
pub mod graph;
pub mod model;
pub mod project;
pub mod rank;
pub mod registry;
pub mod text;
pub mod tree;
