//! Verified core of an analog-circuit parameter optimizer: an arithmetic expression
//! compiler and stack machine, a constraint dependency validator, netlist
//! parameterization, test merging, simulator command generation and the decisions
//! of the solvers.

pub mod constraints;
pub mod expr;
pub mod graph;
pub mod model;
pub mod netlist;
pub mod semantics;
pub mod session;
pub mod solver;
pub mod suite;
pub mod text;
pub mod xschem;
