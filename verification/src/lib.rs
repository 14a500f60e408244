//! A fluent builder for image-processing graphs.
//!
//! Builder calls create pipeline nodes ([`node::FluentNode`]), each with a
//! fresh identifier from an [`node::IdSource`] and an operation from the
//! catalog in [`operations`]. Nodes are gathered as sinks of a
//! [`builder::FluentGraphBuilder`], which walks back from the sinks, keeps
//! one node per identifier, and writes out a graph whose indices start at
//! zero. [`laws`] states what holds of every such graph.
//!
//! [`capture`] names the files that a captured run of a program is written
//! to.

pub mod builder;
pub mod capture;
pub mod decimal;
pub mod laws;
pub mod node;
pub mod operations;
