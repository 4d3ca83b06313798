//! Dynamic program dependence graphs of simulated hardware designs.
//!
//! From the static dependence graph of a design and the value changes of one
//! simulation run, the library builds the graph of statement activations,
//! cycle by cycle, and exports the part of it that a slicing criterion reaches.
//!
//! Around that builder stand a slicer of the static graph, the grouping of
//! an exported graph by the statements of the source, the values of the
//! simulation for its vertices, and what a viewer shows of it: the groups of
//! the instances of the design and the part of the graph between two times.

pub mod activation;
pub mod cfg;
pub mod classes;
pub mod codes;
pub mod components;
pub mod conversion;
pub mod dependency;
pub mod errors;
pub mod graphbuilder;
pub mod grouping;
pub mod hierarchy;
pub mod interning;
pub mod invariants;
pub mod lines;
pub mod linked;
pub mod loops;
pub mod merging;
pub mod modes;
pub mod pdg_spec;
pub mod pruning;
pub mod reader;
pub mod redirect;
pub mod regroup;
pub mod sim_data;
pub mod slicing;
pub mod steps;
pub mod text;
pub mod times;
pub mod trace;
pub mod translation;
pub mod typed;
pub mod util;
pub mod viewer;
pub mod window;
