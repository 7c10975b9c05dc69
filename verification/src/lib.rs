//! Critical-path analysis of weighted dependency graphs.
//!
//! Tasks are edges between vertices and each edge carries a duration. The
//! library orders the vertices of a dependency graph into topological layers,
//! detects cycles, and finds the longest chain of edges from a start vertex
//! together with its total duration.
//!
//! - [`graph`] holds the dependency graph, [`model`] its mathematical model
//!   and [`layering`] what the layering guarantees.
//! - [`critical_path`] finds the critical path of a list of edges; [`paths`],
//!   [`projection`] and [`chain`] say what it is.
//! - [`edge`] and [`vertex`] hold the values and read them from text;
//!   [`text`] holds the reading and writing of numbers and pieces of text.
//! - [`laws`] states what holds of all of them.

pub mod chain;
pub mod critical_path;
mod dependency;
pub mod edge;
pub mod graph;
pub mod laws;
pub mod layering;
pub mod model;
pub mod paths;
pub mod projection;
mod records;
mod relaxation;
pub mod text;
pub mod vertex;
