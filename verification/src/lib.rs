//! Formal Concept Analysis: formal contexts, concept enumeration, implication
//! bases, orders and lattices, and the combinatorics that drawing and
//! dimension algorithms build on.
#![allow(deprecated)]

pub mod alternating;
pub mod annealing;
pub mod bitset;
pub mod canonical_basis;
pub mod clock;
pub mod coloring;
pub mod cycles;
pub mod digraph;
pub mod dimdraw;
pub mod dimdraw_search;
pub mod dimension;
pub mod dimflux;
pub mod exploration_machine;
pub mod formal_context;
pub mod graph;
pub mod hybrid;
pub mod hyperedges;
pub mod iceberg_lattice;
pub mod labels;
pub mod lattice;
pub mod poset;
pub mod repository;
pub mod sat;
pub mod search_budget;
pub mod sugiyama;
pub mod text;
pub mod titanic;

pub use search_budget::SearchBudget;
